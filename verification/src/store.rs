//! The entry store and the merge engine. A store is a sequence of
//! well-formed entries, in insertion order, with pairwise distinct
//! identifiers; `sync` is the one idempotent operation that makes repeated
//! or out-of-order delivery safe: it inserts an incoming entry verbatim when
//! its identifier is unseen and does nothing otherwise.

use vstd::prelude::*;
use crate::entry::{Entry, EntryView, valid_entry};
use crate::text::{contains_substring, is_substring, str_eq};

verus! {

/// The entries of `s` as mathematical values, in order.
pub open spec fn views_of(s: Seq<Entry>) -> Seq<EntryView> {
    s.map_values(|e: Entry| e@)
}

/// Whether some entry of `s` carries the identifier `id`.
pub open spec fn contains_id(s: Seq<EntryView>, id: Seq<char>) -> bool {
    exists|i: int| 0 <= i < s.len() && (#[trigger] s[i].id) == id
}

/// How many entries of `s` carry the identifier `id`.
pub open spec fn count_id(s: Seq<EntryView>, id: Seq<char>) -> nat
    decreases s.len(),
{
    if s.len() == 0 {
        0
    } else {
        count_id(s.drop_last(), id) + if s.last().id == id {
            1nat
        } else {
            0nat
        }
    }
}

/// A store's invariant: every entry well formed, identifiers pairwise
/// distinct.
pub open spec fn store_inv(s: Seq<EntryView>) -> bool {
    (forall|i: int, j: int|
        0 <= i < j < s.len() ==> (#[trigger] s[i].id) != (#[trigger] s[j].id)) && (forall|i: int|
        0 <= i < s.len() ==> valid_entry(#[trigger] s[i]))
}

/// The merge rule on store values: insert when the identifier is unseen,
/// leave the store as it was otherwise.
pub open spec fn spec_merge(s: Seq<EntryView>, e: EntryView) -> Seq<EntryView> {
    if contains_id(s, e.id) {
        s
    } else {
        s.push(e)
    }
}

/// The merge rule applied to each incoming entry in turn.
pub open spec fn merge_all(s: Seq<EntryView>, incoming: Seq<EntryView>) -> Seq<EntryView>
    decreases incoming.len(),
{
    if incoming.len() == 0 {
        s
    } else {
        merge_all(spec_merge(s, incoming[0]), incoming.drop_first())
    }
}

/// How many of the incoming entries the merge rule inserts: those whose
/// identifier is unseen at their turn.
pub open spec fn count_new(s: Seq<EntryView>, incoming: Seq<EntryView>) -> nat
    decreases incoming.len(),
{
    if incoming.len() == 0 {
        0
    } else {
        (if contains_id(s, incoming[0].id) {
            0nat
        } else {
            1nat
        }) + count_new(spec_merge(s, incoming[0]), incoming.drop_first())
    }
}

/// A store without an identifier holds no entry carrying it.
proof fn lemma_count_absent(s: Seq<EntryView>, id: Seq<char>)
    requires
        !contains_id(s, id),
    ensures
        count_id(s, id) == 0,
    decreases s.len(),
{
    if s.len() > 0 {
        assert(s.last() == s[s.len() - 1]);
        assert(s.last().id != id);
        assert(!contains_id(s.drop_last(), id)) by {
            if contains_id(s.drop_last(), id) {
                let i = choose|i: int|
                    0 <= i < s.drop_last().len() && (#[trigger] s.drop_last()[i].id) == id;
                assert(s[i].id == id);
            }
        }
        lemma_count_absent(s.drop_last(), id);
    }
}

/// Under the store invariant, a present identifier is carried by exactly
/// one entry.
proof fn lemma_count_one(s: Seq<EntryView>, id: Seq<char>)
    requires
        store_inv(s),
        contains_id(s, id),
    ensures
        count_id(s, id) == 1,
    decreases s.len(),
{
    let last = s[s.len() - 1];
    if last.id == id {
        assert(!contains_id(s.drop_last(), id)) by {
            if contains_id(s.drop_last(), id) {
                let i = choose|i: int|
                    0 <= i < s.drop_last().len() && (#[trigger] s.drop_last()[i].id) == id;
                assert(s[i].id == s[s.len() - 1].id);
            }
        }
        lemma_count_absent(s.drop_last(), id);
    } else {
        let i = choose|i: int| 0 <= i < s.len() && (#[trigger] s[i].id) == id;
        assert(i < s.len() - 1);
        assert(store_inv(s.drop_last())) by {
            assert(forall|a: int, b: int|
                0 <= a < b < s.drop_last().len() ==> s.drop_last()[a] == s[a] && s.drop_last()[b]
                    == s[b]);
        }
        assert(s.drop_last()[i].id == id);
        lemma_count_one(s.drop_last(), id);
    }
}

/// Idempotence of merge on a store that does not yet hold the entry's
/// identifier: the first merge inserts exactly the entry, a second merge of
/// the same entry finds the identifier present, returns the store unchanged,
/// and exactly one copy remains.
pub proof fn lemma_merge_idempotent(s: Seq<EntryView>, e: EntryView)
    requires
        store_inv(s),
        !contains_id(s, e.id),
    ensures
        spec_merge(s, e) == s.push(e),
        contains_id(spec_merge(s, e), e.id),
        spec_merge(spec_merge(s, e), e) == spec_merge(s, e),
        count_id(spec_merge(spec_merge(s, e), e), e.id) == 1,
{
    let s1 = s.push(e);
    assert(s1[s.len() as int].id == e.id);
    assert(contains_id(s1, e.id));
    assert(s1.drop_last() =~= s);
    assert(s1.last() == e);
    lemma_count_absent(s, e.id);
    assert(count_id(s1, e.id) == 1);
}

/// Two merges of entries carrying one identifier, in whichever order the
/// store's lock admits them, leave exactly one entry under that identifier:
/// never two copies and never none.
pub proof fn lemma_same_id_merged_once(s: Seq<EntryView>, e1: EntryView, e2: EntryView)
    requires
        store_inv(s),
        e1.id == e2.id,
    ensures
        count_id(spec_merge(spec_merge(s, e1), e2), e1.id) == 1,
        contains_id(spec_merge(s, e1), e1.id),
        !contains_id(s, e1.id) ==> spec_merge(spec_merge(s, e1), e2) == s.push(e1),
{
    if contains_id(s, e1.id) {
        lemma_count_one(s, e1.id);
    } else {
        lemma_merge_idempotent(s, e1);
    }
}

/// The identifiers of `a` and `b` have nothing in common.
pub open spec fn ids_disjoint(a: Seq<EntryView>, b: Seq<EntryView>) -> bool {
    forall|i: int, j: int|
        0 <= i < a.len() && 0 <= j < b.len() ==> (#[trigger] a[i].id) != (#[trigger] b[j].id)
}

/// Merging a concatenation is merging the parts in turn.
proof fn lemma_merge_all_append(s: Seq<EntryView>, x: Seq<EntryView>, y: Seq<EntryView>)
    ensures
        merge_all(s, x + y) == merge_all(merge_all(s, x), y),
    decreases x.len(),
{
    if x.len() == 0 {
        assert(x + y =~= y);
    } else {
        assert((x + y)[0] == x[0]);
        assert((x + y).drop_first() =~= x.drop_first() + y);
        lemma_merge_all_append(spec_merge(s, x[0]), x.drop_first(), y);
    }
}

/// Merging entries none of whose identifiers are present appends them all,
/// in order.
proof fn lemma_merge_all_fresh(s: Seq<EntryView>, inc: Seq<EntryView>)
    requires
        ids_disjoint(s, inc),
        store_inv(inc),
    ensures
        merge_all(s, inc) == s + inc,
    decreases inc.len(),
{
    if inc.len() == 0 {
        assert(s + inc =~= s);
    } else {
        let e = inc[0];
        assert(!contains_id(s, e.id)) by {
            if contains_id(s, e.id) {
                let i = choose|i: int| 0 <= i < s.len() && (#[trigger] s[i].id) == e.id;
            }
        }
        assert(spec_merge(s, e) == s.push(e));
        assert(ids_disjoint(s.push(e), inc.drop_first())) by {
            assert(forall|j: int|
                0 <= j < inc.drop_first().len() ==> (#[trigger] inc.drop_first()[j]) == inc[j + 1]);
        }
        assert(store_inv(inc.drop_first())) by {
            assert(forall|j: int|
                0 <= j < inc.drop_first().len() ==> (#[trigger] inc.drop_first()[j]) == inc[j + 1]);
        }
        lemma_merge_all_fresh(s.push(e), inc.drop_first());
        assert(s.push(e) + inc.drop_first() =~= s + inc);
    }
}

/// Merging entries whose identifiers are all present already changes
/// nothing.
proof fn lemma_merge_all_present(s: Seq<EntryView>, inc: Seq<EntryView>)
    requires
        forall|i: int| 0 <= i < inc.len() ==> contains_id(s, (#[trigger] inc[i]).id),
    ensures
        merge_all(s, inc) == s,
    decreases inc.len(),
{
    if inc.len() > 0 {
        assert(contains_id(s, inc[0].id));
        assert(spec_merge(s, inc[0]) == s);
        assert(forall|j: int|
            0 <= j < inc.drop_first().len() ==> (#[trigger] inc.drop_first()[j]) == inc[j + 1]);
        lemma_merge_all_present(s, inc.drop_first());
    }
}

/// Convergence of one push-and-pull cycle: two stores with disjoint
/// identifier sets that exchange their full histories end up holding the
/// same entries, namely everything either side held, with nothing duplicated
/// and nothing lost. The pushing side's entries land first on the receiver;
/// each side keeps its own insertion order as the prefix.
pub proof fn lemma_push_pull_converges(a: Seq<EntryView>, b: Seq<EntryView>)
    requires
        store_inv(a),
        store_inv(b),
        ids_disjoint(a, b),
    ensures
        merge_all(b, a) == b + a,
        merge_all(a, merge_all(b, a)) == a + b,
        (a + b).to_multiset() == (b + a).to_multiset(),
{
    assert(ids_disjoint(b, a));
    lemma_merge_all_fresh(b, a);
    lemma_merge_all_append(a, b, a);
    assert(ids_disjoint(a, b));
    lemma_merge_all_fresh(a, b);
    assert(forall|i: int| 0 <= i < a.len() ==> contains_id(a + b, (#[trigger] a[i]).id)) by {
        assert(forall|i: int| 0 <= i < a.len() ==> (a + b)[i] == a[i]);
    }
    lemma_merge_all_present(a + b, a);
    vstd::seq_lib::lemma_multiset_commutative(a, b);
    vstd::seq_lib::lemma_multiset_commutative(b, a);
}

/// The id-keyed entry store.
pub struct Wlog {
    entries: Vec<Entry>,
}

impl View for Wlog {
    type V = Seq<EntryView>;

    closed spec fn view(&self) -> Seq<EntryView> {
        views_of(self.entries@)
    }
}

impl Wlog {
    /// The store's invariant holds.
    pub open spec fn wf(&self) -> bool {
        store_inv(self@)
    }

    /// An empty store.
    pub fn new() -> (r: Self)
        ensures
            r.wf(),
            r@ == Seq::<EntryView>::empty(),
    {
        let r = Wlog { entries: Vec::new() };
        proof {
            assert(r@ =~= Seq::<EntryView>::empty());
        }
        r
    }

    /// Whether an entry with this identifier is already present.
    pub fn exists_by_id(&self, id: &str) -> (r: bool)
        ensures
            r == contains_id(self@, id@),
    {
        let n = self.entries.len();
        let mut i: usize = 0;
        while i < n
            invariant
                n == self.entries@.len(),
                i <= n,
                forall|j: int| 0 <= j < i ==> self@[j].id != id@,
            decreases n - i,
        {
            if str_eq(self.entries[i].id.as_str(), id) {
                assert(self@[i as int].id == id@);
                return true;
            }
            i = i + 1;
        }
        false
    }

    /// Appends an entry whose identifier the caller knows to be unseen;
    /// avoiding duplicate identifiers is the caller's responsibility.
    pub fn log(&mut self, entry: &Entry)
        requires
            old(self).wf(),
            entry.wf(),
            !contains_id(old(self)@, entry@.id),
        ensures
            final(self).wf(),
            final(self)@ == old(self)@.push(entry@),
    {
        self.entries.push(entry.clone());
        proof {
            assert(final(self)@ =~= old(self)@.push(entry@));
        }
    }

    /// The merge engine: inserts the entry verbatim if and only if its
    /// identifier was not already present, and reports whether it did.
    pub fn sync(&mut self, entry: &Entry) -> (r: bool)
        requires
            old(self).wf(),
            entry.wf(),
        ensures
            final(self).wf(),
            r == !contains_id(old(self)@, entry@.id),
            final(self)@ == spec_merge(old(self)@, entry@),
    {
        if self.exists_by_id(entry.id.as_str()) {
            false
        } else {
            self.entries.push(entry.clone());
            proof {
                assert(final(self)@ =~= old(self)@.push(entry@));
            }
            true
        }
    }

    /// Merges each incoming entry in turn; reports exactly how many were
    /// new.
    pub fn sync_all(&mut self, incoming: &Vec<Entry>) -> (r: usize)
        requires
            old(self).wf(),
            forall|i: int| 0 <= i < incoming@.len() ==> (#[trigger] incoming@[i]).wf(),
        ensures
            final(self).wf(),
            final(self)@ == merge_all(old(self)@, views_of(incoming@)),
            r == count_new(old(self)@, views_of(incoming@)),
            r <= incoming@.len(),
    {
        let n = incoming.len();
        let mut i: usize = 0;
        let mut fresh: usize = 0;
        assert(incoming@.skip(0) =~= incoming@);
        while i < n
            invariant
                n == incoming@.len(),
                i <= n,
                fresh <= i,
                self.wf(),
                forall|j: int| 0 <= j < n ==> (#[trigger] incoming@[j]).wf(),
                merge_all(old(self)@, views_of(incoming@)) == merge_all(
                    self@,
                    views_of(incoming@.skip(i as int)),
                ),
                count_new(old(self)@, views_of(incoming@)) == fresh + count_new(
                    self@,
                    views_of(incoming@.skip(i as int)),
                ),
            decreases n - i,
        {
            let ghost pre = self@;
            let added = self.sync(&incoming[i]);
            if added {
                fresh = fresh + 1;
            }
            proof {
                let rest = views_of(incoming@.skip(i as int));
                assert(rest[0] == incoming@[i as int]@);
                assert(rest.drop_first() =~= views_of(incoming@.skip(i as int + 1)));
                assert(merge_all(pre, rest) == merge_all(
                    spec_merge(pre, incoming@[i as int]@),
                    views_of(incoming@.skip(i as int + 1)),
                ));
                assert(count_new(pre, rest) == (if contains_id(pre, rest[0].id) {
                    0nat
                } else {
                    1nat
                }) + count_new(
                    spec_merge(pre, incoming@[i as int]@),
                    views_of(incoming@.skip(i as int + 1)),
                ));
            }
            i = i + 1;
        }
        assert(views_of(incoming@.skip(n as int)).len() == 0);
        fresh
    }

    /// Every entry, in insertion order.
    pub fn find_all(&self) -> (r: Vec<Entry>)
        ensures
            views_of(r@) == self@,
    {
        let n = self.entries.len();
        let mut out: Vec<Entry> = Vec::new();
        let mut i: usize = 0;
        while i < n
            invariant
                n == self.entries@.len(),
                i <= n,
                views_of(out@) == self@.subrange(0, i as int),
            decreases n - i,
        {
            let c = self.entries[i].clone();
            assert(c@ == self@[i as int]);
            let ghost prev = out@;
            out.push(c);
            proof {
                assert(out@ == prev.push(c));
                assert(views_of(prev).len() == i as int);
                assert(prev.len() == i as int);
                assert(out@.len() == i as int + 1);
                assert forall|j: int| 0 <= j < i + 1 implies views_of(out@)[j] == self@.subrange(
                    0,
                    i as int + 1,
                )[j] by {
                    if j < i {
                        assert(out@[j] == prev[j]);
                        assert(views_of(prev)[j] == self@.subrange(0, i as int)[j]);
                    } else {
                        assert(out@[j] == c);
                    }
                }
                assert(views_of(out@) =~= self@.subrange(0, i as int + 1));
            }
            i = i + 1;
        }
        assert(self@.subrange(0, n as int) =~= self@);
        out
    }

    /// The entries carrying this identifier, in insertion order.
    pub fn find_by_id(&self, id: &str) -> (r: Vec<Entry>)
        ensures
            views_of(r@) == self@.filter(|v: EntryView| v.id == id@),
    {
        let n = self.entries.len();
        let mut out: Vec<Entry> = Vec::new();
        let mut i: usize = 0;
        proof {
            reveal(Seq::filter);
        }
        while i < n
            invariant
                n == self.entries@.len(),
                i <= n,
                views_of(out@) == self@.subrange(0, i as int).filter(|v: EntryView| v.id == id@),
            decreases n - i,
        {
            let hit = str_eq(self.entries[i].id.as_str(), id);
            if hit {
                out.push(self.entries[i].clone());
            }
            proof {
                reveal(Seq::filter);
                let pre = self@.subrange(0, i as int + 1);
                assert(pre.drop_last() =~= self@.subrange(0, i as int));
                assert(pre.last() == self@[i as int]);
                if hit {
                    assert(views_of(out@) =~= self@.subrange(0, i as int).filter(
                        |v: EntryView| v.id == id@,
                    ).push(self@[i as int]));
                }
            }
            i = i + 1;
        }
        assert(self@.subrange(0, n as int) =~= self@);
        out
    }

    /// The entries dated exactly `date`, in insertion order.
    pub fn find_by_date(&self, date: &str) -> (r: Vec<Entry>)
        ensures
            views_of(r@) == self@.filter(|v: EntryView| v.time_created == date@),
    {
        let n = self.entries.len();
        let mut out: Vec<Entry> = Vec::new();
        let mut i: usize = 0;
        proof {
            reveal(Seq::filter);
        }
        while i < n
            invariant
                n == self.entries@.len(),
                i <= n,
                views_of(out@) == self@.subrange(0, i as int).filter(
                    |v: EntryView| v.time_created == date@,
                ),
            decreases n - i,
        {
            let hit = str_eq(self.entries[i].time_created.as_str(), date);
            if hit {
                out.push(self.entries[i].clone());
            }
            proof {
                reveal(Seq::filter);
                let pre = self@.subrange(0, i as int + 1);
                assert(pre.drop_last() =~= self@.subrange(0, i as int));
                assert(pre.last() == self@[i as int]);
                if hit {
                    assert(views_of(out@) =~= self@.subrange(0, i as int).filter(
                        |v: EntryView| v.time_created == date@,
                    ).push(self@[i as int]));
                }
            }
            i = i + 1;
        }
        assert(self@.subrange(0, n as int) =~= self@);
        out
    }

    /// The entries whose message holds `pattern` as a substring, in
    /// insertion order.
    pub fn find_by_message(&self, pattern: &str) -> (r: Vec<Entry>)
        ensures
            views_of(r@) == self@.filter(|v: EntryView| is_substring(v.message, pattern@)),
    {
        let n = self.entries.len();
        let mut out: Vec<Entry> = Vec::new();
        let mut i: usize = 0;
        proof {
            reveal(Seq::filter);
        }
        while i < n
            invariant
                n == self.entries@.len(),
                i <= n,
                views_of(out@) == self@.subrange(0, i as int).filter(
                    |v: EntryView| is_substring(v.message, pattern@),
                ),
            decreases n - i,
        {
            let hit = contains_substring(self.entries[i].message.as_str(), pattern);
            if hit {
                out.push(self.entries[i].clone());
            }
            proof {
                reveal(Seq::filter);
                let pre = self@.subrange(0, i as int + 1);
                assert(pre.drop_last() =~= self@.subrange(0, i as int));
                assert(pre.last() == self@[i as int]);
                if hit {
                    assert(views_of(out@) =~= self@.subrange(0, i as int).filter(
                        |v: EntryView| is_substring(v.message, pattern@),
                    ).push(self@[i as int]));
                }
            }
            i = i + 1;
        }
        assert(self@.subrange(0, n as int) =~= self@);
        out
    }
}

} // verus!
