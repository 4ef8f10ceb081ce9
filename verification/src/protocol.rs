//! The line protocol: the command vocabulary, its grammar, and the
//! per-line handler that turns one received command into the store change
//! and the response lines the peer must see. Reading and writing the
//! connection itself is left to the surrounding program; the handler is a
//! pure step function from store and line to store and responses.

use vstd::prelude::*;
use crate::clock::{is_date, today_string};
use crate::codec::{
    MalformedEntry, comma_join, decode_entry, encode_entry, spec_decode_entry, spec_encode_entry,
    starts_with,
};
use crate::entry::{Entry, EntryView};
use crate::ids::{fresh_entry_id, is_uuid};
use crate::store::{Wlog, spec_merge, views_of};
use crate::text::{lemma_trim_idempotent, matches_at, spec_trim, string_suffix, to_chars, trim_spaces};

verus! {

/// One command of the line protocol, as parsed from a received line.
pub enum Command {
    Ping,
    Log(String),
    Dump,
    DumpFrom(String),
    Import(String),
    Unknown(String),
}

/// The mathematical value of a command.
pub ghost enum CommandView {
    Ping,
    Log(Seq<char>),
    Dump,
    DumpFrom(Seq<char>),
    Import(Seq<char>),
    Unknown(Seq<char>),
}

impl View for Command {
    type V = CommandView;

    open spec fn view(&self) -> CommandView {
        match self {
            Command::Ping => CommandView::Ping,
            Command::Log(m) => CommandView::Log(m@),
            Command::Dump => CommandView::Dump,
            Command::DumpFrom(d) => CommandView::DumpFrom(d@),
            Command::Import(p) => CommandView::Import(p@),
            Command::Unknown(l) => CommandView::Unknown(l@),
        }
    }
}

/// The command words, spelled out character by character.
pub open spec fn k_ping() -> Seq<char> {
    seq!['P', 'I', 'N', 'G']
}

pub open spec fn k_log() -> Seq<char> {
    seq!['L', 'O', 'G', ' ']
}

pub open spec fn k_dump() -> Seq<char> {
    seq!['D', 'U', 'M', 'P']
}

pub open spec fn k_dump_from() -> Seq<char> {
    seq!['D', 'U', 'M', 'P', ' ', 'F', 'R', 'O', 'M', ' ']
}

pub open spec fn k_import() -> Seq<char> {
    seq!['I', 'M', 'P', 'O', 'R', 'T', ' ']
}

/// The command grammar: the exact words `PING` and `DUMP`, the prefixed
/// forms `LOG `, `DUMP FROM ` and `IMPORT ` with everything after the prefix
/// as the argument, and anything else unrecognized, kept verbatim.
pub open spec fn spec_parse_command(line: Seq<char>) -> CommandView {
    if line == k_ping() {
        CommandView::Ping
    } else if starts_with(line, k_log()) {
        CommandView::Log(line.skip(k_log().len() as int))
    } else if line == k_dump() {
        CommandView::Dump
    } else if starts_with(line, k_dump_from()) {
        CommandView::DumpFrom(line.skip(k_dump_from().len() as int))
    } else if starts_with(line, k_import()) {
        CommandView::Import(line.skip(k_import().len() as int))
    } else {
        CommandView::Unknown(line)
    }
}

fn eq_pat(v: &Vec<char>, pat: &Vec<char>) -> (r: bool)
    ensures
        r == (v@ == pat@),
{
    if v.len() != pat.len() {
        return false;
    }
    let m = matches_at(v, 0, pat);
    proof {
        assert(v@.subrange(0, pat@.len() as int) =~= v@);
    }
    m
}

fn has_prefix(v: &Vec<char>, pat: &Vec<char>) -> (r: bool)
    ensures
        r == starts_with(v@, pat@),
{
    if pat.len() > v.len() {
        return false;
    }
    let m = matches_at(v, 0, pat);
    assert(v@.subrange(0, pat@.len() as int) =~= v@.subrange(0 as int, 0 + pat@.len() as int));
    m
}

fn lit_ping() -> (r: Vec<char>)
    ensures
        r@ == k_ping(),
{
    let r = to_chars("PING");
    proof {
        reveal_strlit("PING");
        assert(r@ =~= k_ping());
    }
    r
}

fn lit_log() -> (r: Vec<char>)
    ensures
        r@ == k_log(),
{
    let r = to_chars("LOG ");
    proof {
        reveal_strlit("LOG ");
        assert(r@ =~= k_log());
    }
    r
}

fn lit_dump() -> (r: Vec<char>)
    ensures
        r@ == k_dump(),
{
    let r = to_chars("DUMP");
    proof {
        reveal_strlit("DUMP");
        assert(r@ =~= k_dump());
    }
    r
}

fn lit_dump_from() -> (r: Vec<char>)
    ensures
        r@ == k_dump_from(),
{
    let r = to_chars("DUMP FROM ");
    proof {
        reveal_strlit("DUMP FROM ");
        assert(r@ =~= k_dump_from());
    }
    r
}

fn lit_import() -> (r: Vec<char>)
    ensures
        r@ == k_import(),
{
    let r = to_chars("IMPORT ");
    proof {
        reveal_strlit("IMPORT ");
        assert(r@ =~= k_import());
    }
    r
}

/// Parses one received line into a command.
pub fn parse_command(line: &str) -> (c: Command)
    ensures
        c@ == spec_parse_command(line@),
{
    let v = to_chars(line);
    if eq_pat(&v, &lit_ping()) {
        return Command::Ping;
    }
    let log = lit_log();
    if has_prefix(&v, &log) {
        return Command::Log(string_suffix(&v, log.len()));
    }
    if eq_pat(&v, &lit_dump()) {
        return Command::Dump;
    }
    let dfrom = lit_dump_from();
    if has_prefix(&v, &dfrom) {
        return Command::DumpFrom(string_suffix(&v, dfrom.len()));
    }
    let imp = lit_import();
    if has_prefix(&v, &imp) {
        return Command::Import(string_suffix(&v, imp.len()));
    }
    assert(v@.skip(0) =~= v@);
    Command::Unknown(string_suffix(&v, 0))
}

/// The views of a vector of response lines.
pub open spec fn str_views(xs: Seq<String>) -> Seq<Seq<char>> {
    xs.map_values(|s: String| s@)
}

/// The full-export response: one `IMPORT ` line per stored entry, in
/// insertion order, then a blank line.
pub open spec fn dump_lines(s: Seq<EntryView>) -> Seq<Seq<char>> {
    s.map_values(|v: EntryView| "IMPORT "@ + spec_encode_entry(v) + "\n"@).push("\n"@)
}

/// The filtered-export response: the entries dated `date`, encoded and
/// comma-joined on a single line.
pub open spec fn dump_from_line(s: Seq<EntryView>, date: Seq<char>) -> Seq<char> {
    comma_join(
        s.filter(|v: EntryView| v.time_created == date).map_values(
            |v: EntryView| spec_encode_entry(v),
        ),
    ) + "\n"@
}

/// What handling one line does: the store afterwards and the response
/// lines, given the fresh identifier and today's date an appended entry
/// would receive.
pub ghost struct HandleOut {
    pub store: Seq<EntryView>,
    pub lines: Seq<Seq<char>>,
}

/// The protocol's answer to one non-empty line.
pub open spec fn spec_handle(
    s: Seq<EntryView>,
    line: Seq<char>,
    id: Seq<char>,
    date: Seq<char>,
) -> HandleOut {
    match spec_parse_command(line) {
        CommandView::Ping => HandleOut { store: s, lines: seq!["PONG\n"@] },
        CommandView::Log(msg) => HandleOut {
            store: spec_merge(s, EntryView { id, message: spec_trim(msg), time_created: date }),
            lines: seq!["LOGGED "@ + msg + "\n"@],
        },
        CommandView::Dump => HandleOut { store: s, lines: dump_lines(s) },
        CommandView::DumpFrom(d) => HandleOut { store: s, lines: seq![dump_from_line(s, d)] },
        CommandView::Import(payload) => match spec_decode_entry(payload) {
            Some(v) => HandleOut { store: spec_merge(s, v), lines: seq!["OK\n"@] },
            None => HandleOut { store: s, lines: seq!["Error: Malformed entry\n"@] },
        },
        CommandView::Unknown(orig) => HandleOut {
            store: s,
            lines: seq!["Error: Unknown command "@ + orig + "\n"@],
        },
    }
}

/// Handles one line against the store, with the identifier and date for a
/// possible new entry supplied by the caller: the deterministic core of the
/// connection handler. An empty line is the peer hanging up, not a command:
/// nothing is answered and the connection is to be closed.
pub fn handle_line_with(store: &mut Wlog, line: &str, fresh_id: String, today: String) -> (r:
    Option<Vec<String>>)
    requires
        old(store).wf(),
        is_uuid(fresh_id@),
        is_date(today@),
    ensures
        final(store).wf(),
        (line@.len() == 0) == (r is None),
        r is None ==> final(store)@ == old(store)@,
        r matches Some(lines) ==> final(store)@ == spec_handle(
            old(store)@,
            line@,
            fresh_id@,
            today@,
        ).store && str_views(lines@) == spec_handle(old(store)@, line@, fresh_id@, today@).lines,
{
    if line.unicode_len() == 0 {
        return None;
    }
    let ghost out = spec_handle(store@, line@, fresh_id@, today@);
    let mut lines: Vec<String> = Vec::new();
    match parse_command(line) {
        Command::Ping => {
            lines.push(String::from_str("PONG\n"));
            assert(str_views(lines@) =~= out.lines);
        },
        Command::Log(msg) => {
            proof {
                lemma_trim_idempotent(msg@);
            }
            let e = Entry {
                id: fresh_id,
                message: trim_spaces(msg.as_str()),
                time_created: today,
            };
            let _ = store.sync(&e);
            let mut t = String::from_str("LOGGED ");
            t.append(msg.as_str());
            t.append("\n");
            lines.push(t);
            assert(str_views(lines@) =~= out.lines);
        },
        Command::Dump => {
            let all = store.find_all();
            let ghost m = store@.map_values(
                |v: EntryView| "IMPORT "@ + spec_encode_entry(v) + "\n"@,
            );
            let n = all.len();
            let mut i: usize = 0;
            while i < n
                invariant
                    n == all@.len(),
                    i <= n,
                    views_of(all@) == store@,
                    m == store@.map_values(
                        |v: EntryView| "IMPORT "@ + spec_encode_entry(v) + "\n"@,
                    ),
                    str_views(lines@) == m.subrange(0, i as int),
                decreases n - i,
            {
                let mut t = String::from_str("IMPORT ");
                t.append(encode_entry(&all[i]).as_str());
                t.append("\n");
                let ghost prevl = lines@;
                lines.push(t);
                proof {
                    assert(all@[i as int]@ == store@[i as int]);
                    assert(t@ == m[i as int]);
                    assert(lines@ == prevl.push(t));
                    assert(str_views(prevl).len() == i as int);
                    assert forall|j: int| 0 <= j < i + 1 implies str_views(lines@)[j]
                        == m.subrange(0, i as int + 1)[j] by {
                        if j < i {
                            assert(lines@[j] == prevl[j]);
                            assert(str_views(prevl)[j] == m.subrange(0, i as int)[j]);
                        } else {
                            assert(lines@[j] == t);
                        }
                    }
                    assert(str_views(lines@).len() == i + 1);
                    assert(str_views(lines@) =~= m.subrange(0, i as int + 1));
                }
                i = i + 1;
            }
            let ghost prevl = lines@;
            let nl = String::from_str("\n");
            lines.push(nl);
            proof {
                assert(m.subrange(0, n as int) =~= m);
                assert(lines@ == prevl.push(nl));
                assert(str_views(prevl).len() == n as int);
                assert forall|j: int| 0 <= j < n + 1 implies str_views(lines@)[j] == m.push(
                    "\n"@,
                )[j] by {
                    if j < n {
                        assert(lines@[j] == prevl[j]);
                        assert(str_views(prevl)[j] == m[j]);
                    } else {
                        assert(lines@[j] == nl);
                    }
                }
                assert(str_views(lines@).len() == n + 1);
                assert(str_views(lines@) =~= m.push("\n"@));
            }
        },
        Command::DumpFrom(d) => {
            let hits = store.find_by_date(d.as_str());
            let ghost es = views_of(hits@).map_values(|v: EntryView| spec_encode_entry(v));
            let n = hits.len();
            let mut acc = String::new();
            let mut i: usize = 0;
            while i < n
                invariant
                    n == hits@.len(),
                    i <= n,
                    es == views_of(hits@).map_values(|v: EntryView| spec_encode_entry(v)),
                    acc@ == comma_join(es.subrange(0, i as int)),
                decreases n - i,
            {
                if i > 0 {
                    acc.append(",");
                    proof {
                        reveal_strlit(",");
                        assert(","@ =~= crate::codec::k_comma());
                    }
                }
                acc.append(encode_entry(&hits[i]).as_str());
                proof {
                    let pre = es.subrange(0, i as int + 1);
                    assert(pre.drop_last() =~= es.subrange(0, i as int));
                    assert(pre.last() == es[i as int]);
                    assert(es[i as int] == spec_encode_entry(hits@[i as int]@));
                }
                i = i + 1;
            }
            acc.append("\n");
            lines.push(acc);
            proof {
                assert(es.subrange(0, n as int) =~= es);
                assert(views_of(hits@) == store@.filter(|v: EntryView| v.time_created == d@));
                assert(str_views(lines@) =~= seq![dump_from_line(store@, d@)]);
            }
        },
        Command::Import(payload) => {
            match decode_entry(payload.as_str()) {
                Ok(e) => {
                    let _ = store.sync(&e);
                    lines.push(String::from_str("OK\n"));
                },
                Err(MalformedEntry) => {
                    lines.push(String::from_str("Error: Malformed entry\n"));
                },
            }
            assert(str_views(lines@) =~= out.lines);
        },
        Command::Unknown(orig) => {
            let mut t = String::from_str("Error: Unknown command ");
            t.append(orig.as_str());
            t.append("\n");
            lines.push(t);
            assert(str_views(lines@) =~= out.lines);
        },
    }
    assert(str_views(lines@) =~= out.lines);
    Some(lines)
}

/// Handles one line against the store, drawing the fresh identifier and
/// today's date itself: what the connection handler runs per received line.
pub fn handle_line(store: &mut Wlog, line: &str) -> (r: Option<Vec<String>>)
    requires
        old(store).wf(),
    ensures
        final(store).wf(),
        (line@.len() == 0) == (r is None),
        r is None ==> final(store)@ == old(store)@,
        r matches Some(lines) ==> exists|id: Seq<char>, date: Seq<char>|
            {
                &&& is_uuid(id)
                &&& is_date(date)
                &&& final(store)@ == (#[trigger] spec_handle(old(store)@, line@, id, date)).store
                &&& str_views(lines@) == spec_handle(old(store)@, line@, id, date).lines
            },
{
    let fresh = fresh_entry_id();
    let today = today_string();
    let ghost gid = fresh@;
    let ghost gdate = today@;
    let r = handle_line_with(store, line, fresh, today);
    proof {
        if r is Some {
            assert(is_uuid(gid) && is_date(gdate) && final(store)@ == spec_handle(
                old(store)@,
                line@,
                gid,
                gdate,
            ).store && str_views(r->Some_0@) == spec_handle(old(store)@, line@, gid, gdate).lines);
        }
    }
    r
}

} // verus!
