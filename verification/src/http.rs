//! The bulk synchronization carried over HTTP: a push hands the remote every
//! local entry as one JSON array under a shared-secret authorization header;
//! a pull fetches the remote's full array and merges it locally. The
//! transport itself lives outside; here are the authorization rule, the
//! server side of a push, and both payload directions of a pull.

use vstd::prelude::*;
use crate::codec::{
    MalformedEntry, WireEntry, WireView, decode_entries, encode_entries, spec_decode_entries,
    spec_encode_entries, wire_views,
};
use crate::entry::{Entry, EntryView};
use crate::ids::{fresh_entry_id, is_uuid, is_uuid_str, norm_id, normalize_id};
use crate::store::{Wlog, count_new, merge_all, views_of};
use crate::text::{lemma_trim_idempotent, spec_trim, str_eq, trim_spaces};

verus! {

/// How the server answers a push.
#[derive(Debug, PartialEq, Eq, Structural)]
pub enum PushOutcome {
    /// The payload was merged; duplicates count as success.
    Accepted,
    /// The authorization header was absent or wrong; nothing was stored.
    Unauthorized,
    /// The body was not a well-formed entry array; nothing was stored.
    MalformedBody,
}

/// The authorization rule: the header must be present and equal the
/// configured secret, character for character.
pub open spec fn auth_ok(auth: Option<&str>, secret: Seq<char>) -> bool {
    match auth {
        Some(h) => h@ == secret,
        None => false,
    }
}

/// Whether the request may touch the store.
pub fn check_auth(auth: Option<&str>, secret: &str) -> (r: bool)
    ensures
        r == auth_ok(auth, secret@),
{
    match auth {
        Some(h) => str_eq(h, secret),
        None => false,
    }
}

/// Every identifier that is on the wire, folded to its canonical spelling,
/// is a textual UUID.
pub open spec fn wire_ids_ok(ws: Seq<WireView>) -> bool {
    forall|i: int|
        0 <= i < ws.len() ==> match (#[trigger] ws[i]).id {
            Some(id) => is_uuid(norm_id(id)),
            None => true,
        }
}

/// Every element carries an identifier.
pub open spec fn all_ids_present(ws: Seq<WireView>) -> bool {
    forall|i: int| 0 <= i < ws.len() ==> (#[trigger] ws[i]).id is Some
}

/// The pushed elements as entries: the wire identifier in canonical
/// spelling where one was sent, the corresponding fresh one where none was;
/// the message stored trimmed, as every entry is.
pub open spec fn resolve_wire(ws: Seq<WireView>, fresh: Seq<Seq<char>>) -> Seq<EntryView> {
    Seq::new(
        ws.len(),
        |i: int|
            EntryView {
                id: match ws[i].id {
                    Some(id) => norm_id(id),
                    None => fresh[i],
                },
                message: spec_trim(ws[i].message),
                time_created: ws[i].time_created,
            },
    )
}

/// The pulled elements as entries: every identifier taken from the wire in
/// canonical spelling, every message stored trimmed.
pub open spec fn strict_views(ws: Seq<WireView>) -> Seq<EntryView> {
    Seq::new(
        ws.len(),
        |i: int|
            EntryView {
                id: norm_id(ws[i].id->Some_0),
                message: spec_trim(ws[i].message),
                time_created: ws[i].time_created,
            },
    )
}

/// A store put on the wire arrives whole: every element carries its
/// identifier, every identifier is the store's valid one, and reading the
/// elements back as entries gives the store's entries. With the bulk round
/// trip of the codec and the convergence of `merge_all`, one push-and-pull
/// cycle between two stores leaves both holding the union of their entries.
pub proof fn lemma_wire_of_store(vs: Seq<EntryView>)
    requires
        forall|i: int| 0 <= i < vs.len() ==> crate::entry::valid_entry(#[trigger] vs[i]),
    ensures
        all_ids_present(crate::codec::as_wire_views(vs)),
        wire_ids_ok(crate::codec::as_wire_views(vs)),
        strict_views(crate::codec::as_wire_views(vs)) == vs,
{
    let ws = crate::codec::as_wire_views(vs);
    assert(forall|i: int| 0 <= i < ws.len() ==> (#[trigger] ws[i]) == WireView {
        id: Some(vs[i].id),
        message: vs[i].message,
        time_created: vs[i].time_created,
    });
    assert forall|i: int| 0 <= i < vs.len() implies strict_views(ws)[i] == vs[i] by {
        crate::ids::lemma_norm_id_of_uuid(vs[i].id);
    }
    assert(strict_views(ws) =~= vs);
}

/// The server side of a push: authenticate, decode the array, merge each
/// element with its message trimmed and its identifier folded to the
/// canonical spelling; an element sent without an identifier is stored under
/// a fresh one. A failed authentication or an unreadable body leaves the
/// store untouched; a payload of nothing but duplicates is still a success.
pub fn handle_push(store: &mut Wlog, auth: Option<&str>, secret: &str, body: &str) -> (r:
    PushOutcome)
    requires
        old(store).wf(),
    ensures
        final(store).wf(),
        (r == PushOutcome::Unauthorized) == !auth_ok(auth, secret@),
        r == PushOutcome::Unauthorized ==> final(store)@ == old(store)@,
        auth_ok(auth, secret@) ==> match spec_decode_entries(body@) {
            Some(ws) => if wire_ids_ok(ws) {
                r == PushOutcome::Accepted && exists|fresh: Seq<Seq<char>>|
                    fresh.len() == ws.len() && (forall|i: int|
                        0 <= i < fresh.len() ==> is_uuid(#[trigger] fresh[i])) && final(store)@
                        == merge_all(old(store)@, #[trigger] resolve_wire(ws, fresh))
            } else {
                r == PushOutcome::MalformedBody && final(store)@ == old(store)@
            },
            None => r == PushOutcome::MalformedBody && final(store)@ == old(store)@,
        },
{
    if !check_auth(auth, secret) {
        return PushOutcome::Unauthorized;
    }
    let ws = match decode_entries(body) {
        Ok(ws) => ws,
        Err(_) => {
            return PushOutcome::MalformedBody;
        },
    };
    let ghost wv = wire_views(ws@);
    let n = ws.len();
    let mut entries: Vec<Entry> = Vec::new();
    let mut i: usize = 0;
    while i < n
        invariant
            n == ws@.len(),
            i <= n,
            wv == wire_views(ws@),
            store@ == old(store)@,
            store.wf(),
            auth_ok(auth, secret@),
            spec_decode_entries(body@) == Some(wv),
            entries@.len() == i,
            forall|j: int|
                0 <= j < i ==> {
                    &&& (#[trigger] entries@[j]).wf()
                    &&& entries@[j]@.message == spec_trim(wv[j].message)
                    &&& entries@[j]@.time_created == wv[j].time_created
                    &&& (wv[j].id matches Some(id) ==> entries@[j]@.id == norm_id(id))
                },
            forall|j: int|
                0 <= j < i ==> match (#[trigger] wv[j]).id {
                    Some(id) => is_uuid(norm_id(id)),
                    None => true,
                },
        decreases n - i,
    {
        let w = &ws[i];
        assert(w@ == wv[i as int]);
        let id = match &w.id {
            Some(s) => {
                let nid = normalize_id(s.as_str());
                if !is_uuid_str(nid.as_str()) {
                    assert(!wire_ids_ok(wv));
                    return PushOutcome::MalformedBody;
                }
                nid
            },
            None => fresh_entry_id(),
        };
        proof {
            lemma_trim_idempotent(w.message@);
        }
        entries.push(
            Entry { id, message: trim_spaces(w.message.as_str()), time_created: w.time_created.clone() },
        );
        i = i + 1;
    }
    assert(wire_ids_ok(wv));
    let _ = store.sync_all(&entries);
    proof {
        let fresh = Seq::new(wv.len(), |j: int| entries@[j]@.id);
        assert(forall|j: int| 0 <= j < fresh.len() ==> is_uuid(#[trigger] fresh[j]));
        assert(resolve_wire(wv, fresh) =~= views_of(entries@));
    }
    PushOutcome::Accepted
}

/// The server side of a pull: the whole store as one array, or nothing when
/// the authorization header is absent or wrong.
pub fn handle_pull(store: &Wlog, auth: Option<&str>, secret: &str) -> (r: Option<String>)
    ensures
        (r is Some) == auth_ok(auth, secret@),
        r matches Some(body) ==> body@ == spec_encode_entries(store@),
{
    if !check_auth(auth, secret) {
        return None;
    }
    let all = store.find_all();
    let body = encode_entries(&all);
    proof {
        assert(all@.map_values(|e: Entry| e@) == views_of(all@));
    }
    Some(body)
}

/// The client side of a pull: decode the remote's array and merge each
/// element into the local store. A body whose elements do not all carry
/// textual UUIDs is rejected whole, with the store untouched; otherwise
/// exactly the count of newly inserted entries comes back.
pub fn apply_pull(store: &mut Wlog, body: &str) -> (r: Result<usize, MalformedEntry>)
    requires
        old(store).wf(),
    ensures
        final(store).wf(),
        (r is Ok) == (match spec_decode_entries(body@) {
            Some(ws) => all_ids_present(ws) && wire_ids_ok(ws),
            None => false,
        }),
        r is Ok ==> final(store)@ == merge_all(
            old(store)@,
            strict_views(spec_decode_entries(body@)->Some_0),
        ),
        r matches Ok(n) ==> n == count_new(
            old(store)@,
            strict_views(spec_decode_entries(body@)->Some_0),
        ),
        r is Err ==> final(store)@ == old(store)@,
{
    let ws = match decode_entries(body) {
        Ok(ws) => ws,
        Err(e) => {
            return Err(e);
        },
    };
    let ghost wv = wire_views(ws@);
    let n = ws.len();
    let mut entries: Vec<Entry> = Vec::new();
    let mut i: usize = 0;
    while i < n
        invariant
            n == ws@.len(),
            i <= n,
            wv == wire_views(ws@),
            store@ == old(store)@,
            store.wf(),
            spec_decode_entries(body@) == Some(wv),
            entries@.len() == i,
            forall|j: int|
                0 <= j < i ==> {
                    &&& (#[trigger] entries@[j]).wf()
                    &&& entries@[j]@ == strict_views(wv)[j]
                },
            forall|j: int|
                0 <= j < i ==> (#[trigger] wv[j]).id is Some && is_uuid(norm_id(wv[j].id->Some_0)),
        decreases n - i,
    {
        let w = &ws[i];
        assert(w@ == wv[i as int]);
        let id = match &w.id {
            Some(s) => {
                let nid = normalize_id(s.as_str());
                if !is_uuid_str(nid.as_str()) {
                    assert(!wire_ids_ok(wv));
                    return Err(MalformedEntry);
                }
                nid
            },
            None => {
                assert(!all_ids_present(wv));
                return Err(MalformedEntry);
            },
        };
        proof {
            lemma_trim_idempotent(w.message@);
        }
        entries.push(
            Entry { id, message: trim_spaces(w.message.as_str()), time_created: w.time_created.clone() },
        );
        i = i + 1;
    }
    assert(all_ids_present(wv) && wire_ids_ok(wv));
    proof {
        assert(views_of(entries@) =~= strict_views(wv));
    }
    let fresh = store.sync_all(&entries);
    Ok(fresh)
}

} // verus!
