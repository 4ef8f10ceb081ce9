//! The wire codec: an entry as a single-line JSON object literal holding
//! exactly `id`, `message` and `time_created`, and the inverse parser. The
//! encoder escapes `"`, `\` and the control range, so the line never holds an
//! embedded newline; decoding what was encoded gives the entry back.

use vstd::prelude::*;
use crate::entry::{Entry, EntryView, valid_entry};
use crate::ids::{is_hex_char, is_uuid, is_uuid_str, lemma_norm_id_of_uuid, norm_id, normalize_id};
use crate::text::{from_chars, lemma_trim_idempotent, spec_trim, to_chars, trim_spaces};

verus! {

/// The value of a hexadecimal digit character, or -1.
pub open spec fn hex_val(c: char) -> int {
    if '0' <= c && c <= '9' {
        (c as u32) - 0x30
    } else if 'a' <= c && c <= 'f' {
        (c as u32) - 0x61 + 10
    } else if 'A' <= c && c <= 'F' {
        (c as u32) - 0x41 + 10
    } else {
        -1
    }
}

/// The lowercase hexadecimal digit for a value below 16.
pub open spec fn hex_digit(v: int) -> char {
    if v == 0 { '0' } else if v == 1 { '1' } else if v == 2 { '2' } else if v == 3 { '3' }
    else if v == 4 { '4' } else if v == 5 { '5' } else if v == 6 { '6' } else if v == 7 { '7' }
    else if v == 8 { '8' } else if v == 9 { '9' } else if v == 10 { 'a' } else if v == 11 { 'b' }
    else if v == 12 { 'c' } else if v == 13 { 'd' } else if v == 14 { 'e' } else { 'f' }
}

/// How one character is written inside a JSON string on the wire: short
/// escapes for the quote, the backslash and the common control characters, a
/// `\u00..` escape for the rest of the control range, the character itself
/// otherwise.
pub open spec fn esc_char(c: char) -> Seq<char> {
    if c == '"' {
        seq!['\\', '"']
    } else if c == '\\' {
        seq!['\\', '\\']
    } else if c == '\n' {
        seq!['\\', 'n']
    } else if c == '\r' {
        seq!['\\', 'r']
    } else if c == '\t' {
        seq!['\\', 't']
    } else if (c as u32) < 0x20 {
        seq!['\\', 'u', '0', '0', hex_digit((c as u32) as int / 16), hex_digit((c as u32) as int % 16)]
    } else {
        seq![c]
    }
}

/// A whole text escaped character by character.
pub open spec fn esc(s: Seq<char>) -> Seq<char>
    decreases s.len(),
{
    if s.len() == 0 {
        Seq::empty()
    } else {
        esc_char(s[0]) + esc(s.drop_first())
    }
}

/// Escaping one more character at the end appends its escape.
pub proof fn lemma_esc_push(s: Seq<char>, c: char)
    ensures
        esc(s.push(c)) == esc(s) + esc_char(c),
    decreases s.len(),
{
    if s.len() == 0 {
        assert(s.push(c)[0] == c);
        assert(s.push(c).drop_first() =~= Seq::<char>::empty());
        assert(esc(Seq::<char>::empty()) == Seq::<char>::empty());
        assert(esc(s.push(c)) == esc_char(c) + esc(Seq::<char>::empty()));
        assert(esc(s.push(c)) =~= esc(s) + esc_char(c));
    } else {
        assert(s.push(c)[0] == s[0]);
        assert(s.push(c).drop_first() =~= s.drop_first().push(c));
        lemma_esc_push(s.drop_first(), c);
        assert(esc(s.push(c)) == esc_char(s[0]) + (esc(s.drop_first()) + esc_char(c)));
        assert(esc(s.push(c)) =~= (esc_char(s[0]) + esc(s.drop_first())) + esc_char(c));
        assert(esc(s.push(c)) =~= esc(s) + esc_char(c));
    }
}

/// Every character of a one-character escape is outside the control range.
proof fn lemma_esc_char_no_control(c: char)
    ensures
        forall|i: int| 0 <= i < esc_char(c).len() ==> (#[trigger] esc_char(c)[i] as u32) >= 0x20,
{
    let e = esc_char(c);
    assert forall|i: int| 0 <= i < e.len() implies (e[i] as u32) >= 0x20 by {
        if c == '"' || c == '\\' || c == '\n' || c == '\r' || c == '\t' {
            assert((e[0] as u32) >= 0x20 && (e[1] as u32) >= 0x20);
        } else if (c as u32) < 0x20 {
            assert((e[0] as u32) >= 0x20 && (e[1] as u32) >= 0x20 && (e[2] as u32) >= 0x20 && (
            e[3] as u32) >= 0x20);
            assert((hex_digit((c as u32) as int / 16) as u32) >= 0x20);
            assert((hex_digit((c as u32) as int % 16) as u32) >= 0x20);
        } else {
            assert(e[0] == c);
        }
    }
}

/// No escaped text ever holds a raw control character, in particular no
/// newline: an encoded entry stays on one line.
pub proof fn lemma_esc_no_control(s: Seq<char>)
    ensures
        forall|i: int| 0 <= i < esc(s).len() ==> (#[trigger] esc(s)[i] as u32) >= 0x20,
    decreases s.len(),
{
    if s.len() > 0 {
        lemma_esc_char_no_control(s[0]);
        lemma_esc_no_control(s.drop_first());
        assert(esc(s) == esc_char(s[0]) + esc(s.drop_first()));
        assert forall|i: int| 0 <= i < esc(s).len() implies (#[trigger] esc(s)[i] as u32)
            >= 0x20 by {
            if i < esc_char(s[0]).len() {
                assert(esc(s)[i] == esc_char(s[0])[i]);
            } else {
                assert(esc(s)[i] == esc(s.drop_first())[i - esc_char(s[0]).len()]);
            }
        }
    }
}

fn hex_digit_char(v: u32) -> (r: char)
    requires
        v < 16,
    ensures
        r == hex_digit(v as int),
{
    if v == 0 { '0' } else if v == 1 { '1' } else if v == 2 { '2' } else if v == 3 { '3' }
    else if v == 4 { '4' } else if v == 5 { '5' } else if v == 6 { '6' } else if v == 7 { '7' }
    else if v == 8 { '8' } else if v == 9 { '9' } else if v == 10 { 'a' } else if v == 11 { 'b' }
    else if v == 12 { 'c' } else if v == 13 { 'd' } else if v == 14 { 'e' } else { 'f' }
}

fn push_esc_char(out: &mut Vec<char>, c: char)
    ensures
        final(out)@ == old(out)@ + esc_char(c),
{
    if c == '"' {
        out.push('\\');
        out.push('"');
    } else if c == '\\' {
        out.push('\\');
        out.push('\\');
    } else if c == '\n' {
        out.push('\\');
        out.push('n');
    } else if c == '\r' {
        out.push('\\');
        out.push('r');
    } else if c == '\t' {
        out.push('\\');
        out.push('t');
    } else if (c as u32) < 0x20 {
        let v = c as u32;
        let d1: u32 = if v < 16 { 0 } else { 1 };
        let d0: u32 = if v < 16 { v } else { v - 16 };
        assert(d1 == (c as u32) as int / 16 && d0 == (c as u32) as int % 16);
        out.push('\\');
        out.push('u');
        out.push('0');
        out.push('0');
        out.push(hex_digit_char(d1));
        out.push(hex_digit_char(d0));
    } else {
        out.push(c);
    }
    assert(final(out)@ =~= old(out)@ + esc_char(c));
}

/// `src` escaped, appended to `out`.
fn extend_escaped(out: &mut Vec<char>, src: &Vec<char>)
    ensures
        final(out)@ == old(out)@ + esc(src@),
{
    let mut i: usize = 0;
    while i < src.len()
        invariant
            i <= src@.len(),
            out@ == old(out)@ + esc(src@.subrange(0, i as int)),
        decreases src@.len() - i,
    {
        push_esc_char(out, src[i]);
        proof {
            lemma_esc_push(src@.subrange(0, i as int), src@[i as int]);
            assert(src@.subrange(0, i as int).push(src@[i as int]) =~= src@.subrange(
                0,
                i as int + 1,
            ));
        }
        i = i + 1;
    }
    assert(src@.subrange(0, src@.len() as int) =~= src@);
}

fn extend_chars(out: &mut Vec<char>, src: &Vec<char>)
    ensures
        final(out)@ == old(out)@ + src@,
{
    let mut i: usize = 0;
    while i < src.len()
        invariant
            i <= src@.len(),
            out@ == old(out)@ + src@.subrange(0, i as int),
        decreases src@.len() - i,
    {
        out.push(src[i]);
        assert(out@ =~= old(out)@ + src@.subrange(0, i as int + 1));
        i = i + 1;
    }
    assert(src@.subrange(0, src@.len() as int) =~= src@);
}

/// The wire tokens, spelled out character by character.
pub open spec fn k_obj() -> Seq<char> {
    seq!['{']
}

pub open spec fn k_id_key() -> Seq<char> {
    seq!['"', 'i', 'd', '"', ':', '"']
}

pub open spec fn k_quote() -> Seq<char> {
    seq!['"']
}

pub open spec fn k_comma() -> Seq<char> {
    seq![',']
}

pub open spec fn k_msg_key() -> Seq<char> {
    seq!['"', 'm', 'e', 's', 's', 'a', 'g', 'e', '"', ':', '"']
}

pub open spec fn k_date_key() -> Seq<char> {
    seq![',', '"', 't', 'i', 'm', 'e', '_', 'c', 'r', 'e', 'a', 't', 'e', 'd', '"', ':', '"']
}

pub open spec fn k_close() -> Seq<char> {
    seq!['}']
}

/// The canonical wire form of an entry: one JSON object literal with the
/// three fields in a fixed order, every field value escaped.
pub open spec fn spec_encode_entry(v: EntryView) -> Seq<char> {
    k_obj() + k_id_key() + esc(v.id) + k_quote() + k_comma() + k_msg_key() + esc(v.message)
        + k_quote() + k_date_key() + esc(v.time_created) + k_quote() + k_close()
}

fn lit_id_key() -> (r: Vec<char>)
    ensures
        r@ == k_id_key(),
{
    let r = to_chars("\"id\":\"");
    proof {
        reveal_strlit("\"id\":\"");
        assert(r@ =~= k_id_key());
    }
    r
}

fn lit_msg_key() -> (r: Vec<char>)
    ensures
        r@ == k_msg_key(),
{
    let r = to_chars("\"message\":\"");
    proof {
        reveal_strlit("\"message\":\"");
        assert(r@ =~= k_msg_key());
    }
    r
}

fn lit_date_key() -> (r: Vec<char>)
    ensures
        r@ == k_date_key(),
{
    let r = to_chars(",\"time_created\":\"");
    proof {
        reveal_strlit(",\"time_created\":\"");
        assert(r@ =~= k_date_key());
    }
    r
}

/// The single-line textual form of an entry, as sent on either transport.
pub fn encode_entry(e: &Entry) -> (r: String)
    ensures
        r@ == spec_encode_entry(e@),
{
    let mut out: Vec<char> = Vec::new();
    out.push('{');
    let idk = lit_id_key();
    extend_chars(&mut out, &idk);
    let id_chars = to_chars(e.id.as_str());
    extend_escaped(&mut out, &id_chars);
    out.push('"');
    out.push(',');
    let msgk = lit_msg_key();
    extend_chars(&mut out, &msgk);
    let msg_chars = to_chars(e.message.as_str());
    extend_escaped(&mut out, &msg_chars);
    out.push('"');
    let datek = lit_date_key();
    extend_chars(&mut out, &datek);
    let date_chars = to_chars(e.time_created.as_str());
    extend_escaped(&mut out, &date_chars);
    out.push('"');
    out.push('}');
    assert(out@ =~= spec_encode_entry(e@));
    from_chars(&out)
}

/// Whether `p` is a prefix of `s`.
pub open spec fn starts_with(s: Seq<char>, p: Seq<char>) -> bool {
    p.len() <= s.len() && s.subrange(0, p.len() as int) == p
}

/// `s` with the prefix `p` removed, or nothing when `p` is not a prefix.
pub open spec fn spec_expect(s: Seq<char>, p: Seq<char>) -> Option<Seq<char>> {
    if starts_with(s, p) {
        Some(s.skip(p.len() as int))
    } else {
        None
    }
}

/// The character a short escape stands for.
pub open spec fn short_unesc(e: char) -> char {
    if e == '"' {
        '"'
    } else if e == '\\' {
        '\\'
    } else if e == 'n' {
        '\n'
    } else if e == 'r' {
        '\r'
    } else if e == 't' {
        '\t'
    } else if e == 'b' {
        '\u{8}'
    } else {
        '\u{c}'
    }
}

/// Reads one JSON string body up to and including its closing quote;
/// gives back the unescaped text and what follows the quote. Accepts the
/// escapes the encoder writes and the JSON short forms, plus `\u00..` within the
/// control range; rejects a raw control character or a dangling backslash.
pub open spec fn parse_str_body(s: Seq<char>) -> Option<(Seq<char>, Seq<char>)>
    decreases s.len(),
{
    if s.len() == 0 {
        None
    } else if s[0] == '"' {
        Some((Seq::empty(), s.drop_first()))
    } else if s[0] == '\\' {
        if s.len() < 2 {
            None
        } else {
            let e = s[1];
            if e == '"' || e == '\\' || e == 'n' || e == 'r' || e == 't' || e == 'b' || e == 'f' {
                match parse_str_body(s.skip(2)) {
                    Some((m, r)) => Some((seq![short_unesc(e)] + m, r)),
                    None => None,
                }
            } else if e == 'u' {
                if s.len() >= 6 && s[2] == '0' && s[3] == '0' && (s[4] == '0' || s[4] == '1')
                    && is_hex_char(s[5]) {
                    match parse_str_body(s.skip(6)) {
                        Some((m, r)) => Some(
                            (seq![((16 * hex_val(s[4]) + hex_val(s[5])) as char)] + m, r),
                        ),
                        None => None,
                    }
                } else {
                    None
                }
            } else {
                None
            }
        }
    } else if (s[0] as u32) < 0x20 {
        None
    } else {
        match parse_str_body(s.drop_first()) {
            Some((m, r)) => Some((seq![s[0]] + m, r)),
            None => None,
        }
    }
}

/// The three fields as read off the wire; the identifier may be absent on an
/// entry not yet persisted anywhere.
pub struct WireEntry {
    pub id: Option<String>,
    pub message: String,
    pub time_created: String,
}

/// The mathematical value of a wire entry.
pub ghost struct WireView {
    pub id: Option<Seq<char>>,
    pub message: Seq<char>,
    pub time_created: Seq<char>,
}

impl View for WireEntry {
    type V = WireView;

    open spec fn view(&self) -> WireView {
        WireView {
            id: match self.id {
                Some(s) => Some(s@),
                None => None,
            },
            message: self.message@,
            time_created: self.time_created@,
        }
    }
}

/// Reads the `message` and `time_created` pairs and the closing brace;
/// gives back the entry and whatever follows the object.
pub open spec fn spec_parse_tail(s: Seq<char>, id: Option<Seq<char>>) -> Option<
    (WireView, Seq<char>),
> {
    match spec_expect(s, k_msg_key()) {
        Some(s1) => match parse_str_body(s1) {
            Some((msg, s2)) => match spec_expect(s2, k_date_key()) {
                Some(s3) => match parse_str_body(s3) {
                    Some((date, s4)) => match spec_expect(s4, k_close()) {
                        Some(s5) => Some(
                            (WireView { id, message: msg, time_created: date }, s5),
                        ),
                        None => None,
                    },
                    None => None,
                },
                None => None,
            },
            None => None,
        },
        None => None,
    }
}

/// Reads one entry object off the front of `s`: the object the encoder
/// writes, with the `id` pair optional. Gives back what follows it.
pub open spec fn spec_decode_wire_prefix(s: Seq<char>) -> Option<(WireView, Seq<char>)> {
    match spec_expect(s, k_obj()) {
        Some(s1) => if starts_with(s1, k_id_key()) {
            match parse_str_body(s1.skip(k_id_key().len() as int)) {
                Some((id, s2)) => match spec_expect(s2, k_comma()) {
                    Some(s3) => spec_parse_tail(s3, Some(id)),
                    None => None,
                },
                None => None,
            }
        } else {
            spec_parse_tail(s1, None)
        },
        None => None,
    }
}

/// The wire grammar of one entry standing alone: the object and nothing
/// after it.
pub open spec fn spec_decode_wire(s: Seq<char>) -> Option<WireView> {
    match spec_decode_wire_prefix(s) {
        Some((w, rest)) => if rest.len() == 0 {
            Some(w)
        } else {
            None
        },
        None => None,
    }
}

fn hex_val_char(c: char) -> (r: Option<u8>)
    ensures
        (r is Some) == is_hex_char(c),
        r matches Some(d) ==> d < 16 && d as int == hex_val(c),
{
    if c == '0' { Some(0) } else if c == '1' { Some(1) } else if c == '2' { Some(2) }
    else if c == '3' { Some(3) } else if c == '4' { Some(4) } else if c == '5' { Some(5) }
    else if c == '6' { Some(6) } else if c == '7' { Some(7) } else if c == '8' { Some(8) }
    else if c == '9' { Some(9) } else if c == 'a' || c == 'A' { Some(10) }
    else if c == 'b' || c == 'B' { Some(11) } else if c == 'c' || c == 'C' { Some(12) }
    else if c == 'd' || c == 'D' { Some(13) } else if c == 'e' || c == 'E' { Some(14) }
    else if c == 'f' || c == 'F' { Some(15) } else { None }
}

fn expect_at(v: &Vec<char>, i: usize, pat: &Vec<char>) -> (r: Option<usize>)
    requires
        i <= v@.len(),
    ensures
        match r {
            Some(j) => j == i + pat@.len() && j <= v@.len() && spec_expect(
                v@.skip(i as int),
                pat@,
            ) == Some(v@.skip(j as int)),
            None => spec_expect(v@.skip(i as int), pat@) is None,
        },
{
    let n = v.len();
    let m = pat.len();
    if n - i < m {
        assert(!starts_with(v@.skip(i as int), pat@));
        return None;
    }
    if crate::text::matches_at(v, i, pat) {
        assert(v@.skip(i as int).subrange(0, pat@.len() as int) =~= v@.subrange(
            i as int,
            i + pat@.len() as int,
        ));
        assert(v@.skip(i as int).skip(pat@.len() as int) =~= v@.skip(i + pat@.len()));
        Some(i + m)
    } else {
        assert(v@.skip(i as int).subrange(0, pat@.len() as int) =~= v@.subrange(
            i as int,
            i + pat@.len() as int,
        ));
        None
    }
}

fn parse_str_body_at(v: &Vec<char>, start: usize) -> (r: Option<(Vec<char>, usize)>)
    requires
        start <= v@.len(),
    ensures
        match r {
            Some(p) => start <= p.1 <= v@.len() && parse_str_body(v@.skip(start as int)) == Some(
                (p.0@, v@.skip(p.1 as int)),
            ),
            None => parse_str_body(v@.skip(start as int)) is None,
        },
{
    let n = v.len();
    let mut i: usize = start;
    let mut out: Vec<char> = Vec::new();
    while i < n
        invariant
            n == v@.len(),
            start <= i <= n,
            match parse_str_body(v@.skip(i as int)) {
                Some((m, r)) => parse_str_body(v@.skip(start as int)) == Some((out@ + m, r)),
                None => parse_str_body(v@.skip(start as int)) is None,
            },
        decreases n - i,
    {
        let ghost suf = v@.skip(i as int);
        assert(suf.len() == n - i && suf[0] == v@[i as int]);
        let c = v[i];
        if c == '"' {
            assert(suf.drop_first() =~= v@.skip(i as int + 1));
            assert(parse_str_body(suf) == Some((Seq::<char>::empty(), v@.skip(i as int + 1))));
            assert(out@ + Seq::<char>::empty() =~= out@);
            return Some((out, i + 1));
        } else if c == '\\' {
            if n - i < 2 {
                assert(parse_str_body(suf) is None);
                return None;
            }
            assert(suf[1] == v@[i as int + 1]);
            let e = v[i + 1];
            if e == '"' || e == '\\' || e == 'n' || e == 'r' || e == 't' || e == 'b' || e == 'f' {
                let u = if e == '"' { '"' } else if e == '\\' { '\\' } else if e == 'n' { '\n' }
                else if e == 'r' { '\r' } else if e == 't' { '\t' } else if e == 'b' { '\u{8}' }
                else { '\u{c}' };
                assert(u == short_unesc(e));
                let ghost prev = out@;
                out.push(u);
                proof {
                    assert(suf.skip(2) =~= v@.skip(i as int + 2));
                    let po = parse_str_body(v@.skip(i as int + 2));
                    if po is Some {
                        assert(prev + (seq![u] + po->Some_0.0) =~= out@ + po->Some_0.0);
                    }
                }
                i = i + 2;
            } else if e == 'u' {
                if n - i < 6 {
                    assert(parse_str_body(suf) is None);
                    return None;
                }
                assert(suf[2] == v@[i as int + 2] && suf[3] == v@[i as int + 3] && suf[4] == v@[
                    i as int + 4] && suf[5] == v@[i as int + 5]);
                let c2 = v[i + 2];
                let c3 = v[i + 3];
                let c4 = v[i + 4];
                if !(c2 == '0' && c3 == '0' && (c4 == '0' || c4 == '1')) {
                    assert(parse_str_body(suf) is None);
                    return None;
                }
                let d0 = match hex_val_char(v[i + 5]) {
                    Some(d) => d,
                    None => {
                        assert(parse_str_body(suf) is None);
                        return None;
                    },
                };
                let d1: u8 = if c4 == '0' { 0 } else { 1 };
                assert(d1 as int == hex_val(suf[4]));
                let b: u8 = 16 * d1 + d0;
                let u = b as char;
                assert(u == ((16 * hex_val(suf[4]) + hex_val(suf[5])) as char));
                let ghost prev = out@;
                out.push(u);
                proof {
                    assert(suf.skip(6) =~= v@.skip(i as int + 6));
                    let po = parse_str_body(v@.skip(i as int + 6));
                    if po is Some {
                        assert(prev + (seq![u] + po->Some_0.0) =~= out@ + po->Some_0.0);
                    }
                }
                i = i + 6;
            } else {
                assert(parse_str_body(suf) is None);
                return None;
            }
        } else if (c as u32) < 0x20 {
            assert(parse_str_body(suf) is None);
            return None;
        } else {
            let ghost prev = out@;
            out.push(c);
            proof {
                assert(suf.drop_first() =~= v@.skip(i as int + 1));
                let po = parse_str_body(v@.skip(i as int + 1));
                if po is Some {
                    assert(prev + (seq![c] + po->Some_0.0) =~= out@ + po->Some_0.0);
                }
            }
            i = i + 1;
        }
    }
    assert(v@.skip(i as int).len() == 0);
    None
}

/// No character of `s` is below the control bound; in particular `s` holds
/// no newline.
pub open spec fn line_clean(s: Seq<char>) -> bool {
    forall|i: int| 0 <= i < s.len() ==> (#[trigger] s[i] as u32) >= 0x20
}

proof fn lemma_concat_clean(a: Seq<char>, b: Seq<char>)
    requires
        line_clean(a),
        line_clean(b),
    ensures
        line_clean(a + b),
{
    assert forall|i: int| 0 <= i < (a + b).len() implies ((a + b)[i] as u32) >= 0x20 by {
        if i < a.len() {
            assert((a + b)[i] == a[i]);
        } else {
            assert((a + b)[i] == b[i - a.len()]);
        }
    }
}

/// An encoded entry is one clean line: no control character and so no
/// embedded newline anywhere in it.
pub proof fn lemma_encode_entry_single_line(v: EntryView)
    ensures
        line_clean(spec_encode_entry(v)),
        forall|i: int|
            0 <= i < spec_encode_entry(v).len() ==> (#[trigger] spec_encode_entry(v)[i]) != '\n',
{
    lemma_esc_no_control(v.id);
    lemma_esc_no_control(v.message);
    lemma_esc_no_control(v.time_created);
    lemma_concat_clean(k_obj(), k_id_key());
    lemma_concat_clean(k_obj() + k_id_key(), esc(v.id));
    lemma_concat_clean(k_obj() + k_id_key() + esc(v.id), k_quote());
    lemma_concat_clean(k_obj() + k_id_key() + esc(v.id) + k_quote(), k_comma());
    lemma_concat_clean(k_obj() + k_id_key() + esc(v.id) + k_quote() + k_comma(), k_msg_key());
    lemma_concat_clean(
        k_obj() + k_id_key() + esc(v.id) + k_quote() + k_comma() + k_msg_key(),
        esc(v.message),
    );
    lemma_concat_clean(
        k_obj() + k_id_key() + esc(v.id) + k_quote() + k_comma() + k_msg_key() + esc(v.message),
        k_quote(),
    );
    lemma_concat_clean(
        k_obj() + k_id_key() + esc(v.id) + k_quote() + k_comma() + k_msg_key() + esc(v.message)
            + k_quote(),
        k_date_key(),
    );
    lemma_concat_clean(
        k_obj() + k_id_key() + esc(v.id) + k_quote() + k_comma() + k_msg_key() + esc(v.message)
            + k_quote() + k_date_key(),
        esc(v.time_created),
    );
    lemma_concat_clean(
        k_obj() + k_id_key() + esc(v.id) + k_quote() + k_comma() + k_msg_key() + esc(v.message)
            + k_quote() + k_date_key() + esc(v.time_created),
        k_quote(),
    );
    lemma_concat_clean(
        k_obj() + k_id_key() + esc(v.id) + k_quote() + k_comma() + k_msg_key() + esc(v.message)
            + k_quote() + k_date_key() + esc(v.time_created) + k_quote(),
        k_close(),
    );
}

/// Dropping a prefix that is literally there leaves the rest.
proof fn lemma_expect_prefix(p: Seq<char>, r: Seq<char>)
    ensures
        spec_expect(p + r, p) == Some(r),
{
    assert((p + r).subrange(0, p.len() as int) =~= p);
    assert((p + r).skip(p.len() as int) =~= r);
}

/// Reading a string body off the escape of `m`, a closing quote and
/// anything after gives back `m` and that remainder: unescaping undoes
/// escaping, whatever follows the string on the wire.
proof fn lemma_parse_escaped(m: Seq<char>, rest: Seq<char>)
    ensures
        parse_str_body(esc(m) + k_quote() + rest) == Some((m, rest)),
    decreases m.len(),
{
    let s = esc(m) + k_quote() + rest;
    if m.len() == 0 {
        assert(esc(m) == Seq::<char>::empty());
        assert(s =~= seq!['"'] + rest);
        assert(s[0] == '"');
        assert(s.drop_first() =~= rest);
        assert(Seq::<char>::empty() =~= m);
    } else {
        let c = m[0];
        let m2 = m.drop_first();
        lemma_parse_escaped(m2, rest);
        let tail = esc(m2) + k_quote() + rest;
        assert(esc(m) == esc_char(c) + esc(m2));
        assert(s =~= esc_char(c) + tail);
        assert(seq![c] + m2 =~= m);
        if c == '"' || c == '\\' || c == '\n' || c == '\r' || c == '\t' {
            assert(esc_char(c)[0] == '\\');
            assert(s[0] == '\\' && s.len() >= 2);
            assert(s[1] == esc_char(c)[1]);
            let e = s[1];
            assert(e == '"' || e == '\\' || e == 'n' || e == 'r' || e == 't');
            assert(short_unesc(e) == c);
            assert(s.skip(2) =~= tail);
            assert(parse_str_body(s) == Some((seq![c] + m2, rest)));
        } else if (c as u32) < 0x20 {
            let w = (c as u32) as int;
            assert(esc_char(c) == seq!['\\', 'u', '0', '0', hex_digit(w / 16), hex_digit(w % 16)]);
            assert(s.len() >= 6);
            assert(s[0] == '\\' && s[1] == 'u' && s[2] == '0' && s[3] == '0');
            assert(s[4] == hex_digit(w / 16) && s[5] == hex_digit(w % 16));
            assert(0 <= w / 16 < 2 && 0 <= w % 16 < 16);
            assert(s[4] == '0' || s[4] == '1');
            assert(is_hex_char(s[5]));
            assert(hex_val(s[4]) == w / 16);
            assert(hex_val(s[5]) == w % 16);
            assert(16 * hex_val(s[4]) + hex_val(s[5]) == w);
            vstd::utf8::char_u32_cast(c, c as u32);
            assert(((16 * hex_val(s[4]) + hex_val(s[5])) as char) == c);
            assert(s.skip(6) =~= tail);
            assert(parse_str_body(s) == Some((seq![c] + m2, rest)));
        } else {
            assert(s[0] == c);
            assert(c != '"' && c != '\\' && (c as u32) >= 0x20);
            assert(s.drop_first() =~= tail);
            assert(parse_str_body(s) == Some((seq![c] + m2, rest)));
        }
    }
}

/// What the encoder writes, the wire parser reads back unchanged off the
/// front of any text: the identifier is found, the message and the date come
/// back verbatim, and exactly the rest is left over.
pub proof fn lemma_decode_wire_prefix_of_encode(v: EntryView, rest: Seq<char>)
    ensures
        spec_decode_wire_prefix(spec_encode_entry(v) + rest) == Some(
            (WireView { id: Some(v.id), message: v.message, time_created: v.time_created }, rest),
        ),
{
    let s = spec_encode_entry(v) + rest;
    let t4 = k_close() + rest;
    let rest3 = k_date_key() + (esc(v.time_created) + k_quote() + t4);
    let t3 = k_msg_key() + (esc(v.message) + k_quote() + rest3);
    let rest2 = k_comma() + t3;
    let t2 = esc(v.id) + k_quote() + rest2;
    let t1 = k_id_key() + t2;
    assert(s =~= k_obj() + t1);
    lemma_expect_prefix(k_obj(), t1);
    lemma_expect_prefix(k_id_key(), t2);
    lemma_parse_escaped(v.id, rest2);
    lemma_expect_prefix(k_comma(), t3);
    lemma_expect_prefix(k_msg_key(), esc(v.message) + k_quote() + rest3);
    lemma_parse_escaped(v.message, rest3);
    lemma_expect_prefix(k_date_key(), esc(v.time_created) + k_quote() + t4);
    lemma_parse_escaped(v.time_created, t4);
    assert(t4 =~= k_close() + rest);
    lemma_expect_prefix(k_close(), rest);
}

/// An encoded entry standing alone parses back to exactly its fields.
pub proof fn lemma_decode_wire_of_encode(v: EntryView)
    ensures
        spec_decode_wire(spec_encode_entry(v)) == Some(
            WireView { id: Some(v.id), message: v.message, time_created: v.time_created },
        ),
{
    lemma_decode_wire_prefix_of_encode(v, Seq::<char>::empty());
    assert(spec_encode_entry(v) + Seq::<char>::empty() =~= spec_encode_entry(v));
}

/// Round trip: decoding an encoded entry gives the entry back, for every
/// well-formed entry value.
pub proof fn lemma_round_trip(v: EntryView)
    requires
        valid_entry(v),
    ensures
        spec_decode_entry(spec_encode_entry(v)) == Some(v),
{
    lemma_decode_wire_of_encode(v);
    lemma_norm_id_of_uuid(v.id);
    lemma_trim_idempotent(v.message);
}

/// The error returned when a wire payload cannot be read back as an entry.
#[derive(Debug)]
pub struct MalformedEntry;

/// Reads one entry object starting at `start`, in the grammar of
/// `spec_decode_wire_prefix`; gives back the entry and the position just
/// past its closing brace.
fn parse_wire_at(v: &Vec<char>, start: usize) -> (r: Option<(WireEntry, usize)>)
    requires
        start <= v@.len(),
    ensures
        match r {
            Some(p) => start < p.1 <= v@.len() && spec_decode_wire_prefix(v@.skip(start as int))
                == Some((p.0@, v@.skip(p.1 as int))),
            None => spec_decode_wire_prefix(v@.skip(start as int)) is None,
        },
{
    let mut brace: Vec<char> = Vec::new();
    brace.push('{');
    assert(brace@ =~= k_obj());
    let i1 = match expect_at(v, start, &brace) {
        Some(j) => j,
        None => {
            return None;
        },
    };
    let idk = lit_id_key();
    let (id_opt, i2) = match expect_at(v, i1, &idk) {
        Some(j) => {
            let (idv, j2) = match parse_str_body_at(v, j) {
                Some(p) => p,
                None => {
                    return None;
                },
            };
            let mut comma: Vec<char> = Vec::new();
            comma.push(',');
            assert(comma@ =~= k_comma());
            let j3 = match expect_at(v, j2, &comma) {
                Some(t) => t,
                None => {
                    return None;
                },
            };
            (Some(from_chars(&idv)), j3)
        },
        None => (None, i1),
    };
    let msgk = lit_msg_key();
    let i3 = match expect_at(v, i2, &msgk) {
        Some(j) => j,
        None => {
            return None;
        },
    };
    let (msgv, i4) = match parse_str_body_at(v, i3) {
        Some(p) => p,
        None => {
            return None;
        },
    };
    let datek = lit_date_key();
    let i5 = match expect_at(v, i4, &datek) {
        Some(j) => j,
        None => {
            return None;
        },
    };
    let (datev, i6) = match parse_str_body_at(v, i5) {
        Some(p) => p,
        None => {
            return None;
        },
    };
    let mut close: Vec<char> = Vec::new();
    close.push('}');
    assert(close@ =~= k_close());
    let i7 = match expect_at(v, i6, &close) {
        Some(j) => j,
        None => {
            return None;
        },
    };
    Some(
        (
            WireEntry {
                id: id_opt,
                message: from_chars(&msgv),
                time_created: from_chars(&datev),
            },
            i7,
        ),
    )
}

/// Reads one entry off the wire, in the grammar of `spec_decode_wire`.
pub fn decode_wire(s: &str) -> (r: Option<WireEntry>)
    ensures
        match r {
            Some(w) => spec_decode_wire(s@) == Some(w@),
            None => spec_decode_wire(s@) is None,
        },
{
    let v = to_chars(s);
    proof {
        assert(v@.skip(0) =~= v@);
    }
    match parse_wire_at(&v, 0) {
        Some((w, end)) => {
            if end == v.len() {
                assert(v@.skip(end as int).len() == 0);
                Some(w)
            } else {
                assert(v@.skip(end as int).len() != 0);
                None
            }
        },
        None => None,
    }
}

pub open spec fn k_lbrack() -> Seq<char> {
    seq!['[']
}

pub open spec fn k_rbrack() -> Seq<char> {
    seq![']']
}

/// The pieces joined with single commas, no brackets.
pub open spec fn comma_join(xs: Seq<Seq<char>>) -> Seq<char>
    decreases xs.len(),
{
    if xs.len() == 0 {
        Seq::empty()
    } else if xs.len() == 1 {
        xs[0]
    } else {
        comma_join(xs.drop_last()) + k_comma() + xs.last()
    }
}

/// The bulk wire form: every entry encoded, comma-joined, in one JSON array
/// literal.
pub open spec fn spec_encode_entries(vs: Seq<EntryView>) -> Seq<char> {
    k_lbrack() + comma_join(vs.map_values(|v: EntryView| spec_encode_entry(v))) + k_rbrack()
}

/// The whole store on the wire: one JSON array holding each entry's
/// single-line form, in store order.
pub fn encode_entries(entries: &Vec<Entry>) -> (r: String)
    ensures
        r@ == spec_encode_entries(entries@.map_values(|e: Entry| e@)),
{
    let ghost es = entries@.map_values(|e: Entry| spec_encode_entry(e@));
    let n = entries.len();
    let mut out: Vec<char> = Vec::new();
    out.push('[');
    let mut i: usize = 0;
    while i < n
        invariant
            n == entries@.len(),
            i <= n,
            es == entries@.map_values(|e: Entry| spec_encode_entry(e@)),
            out@ == k_lbrack() + comma_join(es.subrange(0, i as int)),
        decreases n - i,
    {
        if i > 0 {
            out.push(',');
        }
        let enc = encode_entry(&entries[i]);
        let encv = to_chars(enc.as_str());
        extend_chars(&mut out, &encv);
        proof {
            let pre = es.subrange(0, i as int + 1);
            assert(pre.drop_last() =~= es.subrange(0, i as int));
            assert(pre.last() == es[i as int]);
            assert(es[i as int] == spec_encode_entry(entries@[i as int]@));
            if i == 0 {
                assert(comma_join(es.subrange(0, 0)) == Seq::<char>::empty());
                assert(out@ =~= k_lbrack() + comma_join(pre));
            } else {
                assert(comma_join(pre) == comma_join(es.subrange(0, i as int)) + k_comma()
                    + es[i as int]);
                assert(out@ =~= k_lbrack() + comma_join(pre));
            }
        }
        i = i + 1;
    }
    out.push(']');
    proof {
        assert(es.subrange(0, n as int) =~= es);
        let vs = entries@.map_values(|e: Entry| e@);
        assert(vs.map_values(|v: EntryView| spec_encode_entry(v)) =~= es);
        assert(out@ =~= spec_encode_entries(vs));
    }
    from_chars(&out)
}

/// The entry values of a parsed list, in order.
pub open spec fn wire_views(ws: Seq<WireEntry>) -> Seq<WireView> {
    ws.map_values(|w: WireEntry| w@)
}

/// One or more entry objects joined with commas, then the closing bracket.
/// The fuel bounds the number of elements; each element takes at least one
/// character, so a fuel of the text's length never runs out.
pub open spec fn spec_decode_list(s: Seq<char>, fuel: nat) -> Option<Seq<WireView>>
    decreases fuel,
{
    match spec_decode_wire_prefix(s) {
        Some((w, rest)) => if rest == k_rbrack() {
            Some(seq![w])
        } else if starts_with(rest, k_comma()) {
            if fuel == 0 {
                None
            } else {
                match spec_decode_list(rest.skip(1), (fuel - 1) as nat) {
                    Some(ws) => Some(seq![w] + ws),
                    None => None,
                }
            }
        } else {
            None
        },
        None => None,
    }
}

/// The bulk wire grammar: a JSON array of entry objects, possibly empty.
pub open spec fn spec_decode_entries(s: Seq<char>) -> Option<Seq<WireView>> {
    match spec_expect(s, k_lbrack()) {
        Some(s1) => if s1 == k_rbrack() {
            Some(Seq::empty())
        } else {
            spec_decode_list(s1, s1.len())
        },
        None => None,
    }
}

/// Reads a bulk payload back: the array of entries it holds, each with the
/// identifier optional, in payload order.
pub fn decode_entries(s: &str) -> (r: Result<Vec<WireEntry>, MalformedEntry>)
    ensures
        match r {
            Ok(ws) => spec_decode_entries(s@) == Some(wire_views(ws@)),
            Err(_) => spec_decode_entries(s@) is None,
        },
{
    let v = to_chars(s);
    let n = v.len();
    proof {
        assert(v@.skip(0) =~= v@);
    }
    let mut lb: Vec<char> = Vec::new();
    lb.push('[');
    assert(lb@ =~= k_lbrack());
    let i1 = match expect_at(&v, 0, &lb) {
        Some(j) => j,
        None => {
            return Err(MalformedEntry);
        },
    };
    let ghost s1 = v@.skip(i1 as int);
    if n - i1 == 1 && v[i1] == ']' {
        assert(s1 =~= k_rbrack());
        let out: Vec<WireEntry> = Vec::new();
        assert(wire_views(out@) =~= Seq::<WireView>::empty());
        return Ok(out);
    }
    assert(s1 != k_rbrack()) by {
        if s1 == k_rbrack() {
            assert(s1.len() == 1 && s1[0] == ']');
            assert(v@[i1 as int] == ']');
        }
    }
    let ghost fuel0 = s1.len();
    let mut out: Vec<WireEntry> = Vec::new();
    let mut i: usize = i1;
    while i < n
        invariant
            n == v@.len(),
            i1 <= i <= n,
            s1 == v@.skip(i1 as int),
            fuel0 == s1.len(),
            v@ == s@,
            spec_decode_entries(s@) == spec_decode_list(s1, fuel0),
            out@.len() <= i - i1,
            match spec_decode_list(v@.skip(i as int), (fuel0 - out@.len()) as nat) {
                Some(ws) => spec_decode_list(s1, fuel0) == Some(wire_views(out@) + ws),
                None => spec_decode_list(s1, fuel0) is None,
            },
        decreases n - i,
    {
        let ghost fuel_k = (fuel0 - out@.len()) as nat;
        let (w, end) = match parse_wire_at(&v, i) {
            Some(p) => p,
            None => {
                assert(spec_decode_list(v@.skip(i as int), fuel_k) is None);
                return Err(MalformedEntry);
            },
        };
        let ghost rest = v@.skip(end as int);
        if end == n {
            assert(rest.len() == 0);
            assert(rest != k_rbrack() && !starts_with(rest, k_comma()));
            assert(spec_decode_list(v@.skip(i as int), fuel_k) is None);
            return Err(MalformedEntry);
        }
        assert(rest[0] == v@[end as int]);
        let c = v[end];
        if c == ']' && end == n - 1 {
            assert(rest =~= k_rbrack());
            let ghost prev = out@;
            out.push(w);
            proof {
                assert(spec_decode_list(v@.skip(i as int), fuel_k) == Some(seq![w@]));
                assert(wire_views(out@) =~= wire_views(prev) + seq![w@]);
            }
            return Ok(out);
        }
        if c == ',' {
            assert(rest.subrange(0, 1) =~= k_comma());
            assert(starts_with(rest, k_comma()));
            assert(rest != k_rbrack()) by {
                if rest == k_rbrack() {
                    assert(rest[0] == ']');
                }
            }
            assert(fuel_k > 0) by {
                assert(out@.len() <= i - i1);
                assert(i < n);
            }
            assert(rest.skip(1) =~= v@.skip(end as int + 1));
            let ghost prev = out@;
            out.push(w);
            proof {
                let inner = spec_decode_list(v@.skip(end as int + 1), (fuel_k - 1) as nat);
                assert((fuel_k - 1) as nat == (fuel0 - out@.len()) as nat);
                if inner is Some {
                    assert(spec_decode_list(v@.skip(i as int), fuel_k) == Some(
                        seq![w@] + inner->Some_0,
                    ));
                    assert(wire_views(prev) + (seq![w@] + inner->Some_0) =~= wire_views(out@)
                        + inner->Some_0);
                } else {
                    assert(spec_decode_list(v@.skip(i as int), fuel_k) is None);
                }
            }
            i = end + 1;
        } else {
            assert(rest != k_rbrack()) by {
                if rest == k_rbrack() {
                    assert(rest.len() == 1 && rest[0] == ']');
                }
            }
            assert(!starts_with(rest, k_comma())) by {
                if starts_with(rest, k_comma()) {
                    assert(rest.subrange(0, 1) == k_comma());
                    assert(rest.subrange(0, 1)[0] == ',');
                }
            }
            assert(spec_decode_list(v@.skip(i as int), fuel_k) is None);
            return Err(MalformedEntry);
        }
    }
    assert(v@.skip(i as int).len() == 0);
    assert(spec_decode_wire_prefix(v@.skip(i as int)) is None);
    Err(MalformedEntry)
}

/// The meaning of `decodeEntry`: the wire grammar, with the identifier
/// required and, once folded to its canonical spelling, required to be a
/// textual UUID; the message is stored trimmed, as every entry is.
pub open spec fn spec_decode_entry(s: Seq<char>) -> Option<EntryView> {
    match spec_decode_wire(s) {
        Some(w) => match w.id {
            Some(id) => if is_uuid(norm_id(id)) {
                Some(
                    EntryView {
                        id: norm_id(id),
                        message: spec_trim(w.message),
                        time_created: w.time_created,
                    },
                )
            } else {
                None
            },
            None => None,
        },
        None => None,
    }
}

/// Reads an entry back from its single-line textual form, folding the
/// identifier to its canonical spelling and trimming the message. Fails when
/// the text is not in the wire grammar, when the `id` field is absent, or
/// when the identifier is not a textual UUID.
pub fn decode_entry(s: &str) -> (r: Result<Entry, MalformedEntry>)
    ensures
        match r {
            Ok(e) => spec_decode_entry(s@) == Some(e@) && e.wf(),
            Err(_) => spec_decode_entry(s@) is None,
        },
{
    match decode_wire(s) {
        Some(w) => match w.id {
            Some(id) => {
                let nid = normalize_id(id.as_str());
                if is_uuid_str(nid.as_str()) {
                    proof {
                        lemma_trim_idempotent(w.message@);
                    }
                    Ok(
                        Entry {
                            id: nid,
                            message: trim_spaces(w.message.as_str()),
                            time_created: w.time_created,
                        },
                    )
                } else {
                    Err(MalformedEntry)
                }
            },
            None => Err(MalformedEntry),
        },
        None => Err(MalformedEntry),
    }
}

impl Entry {
    /// Reads an entry back from its single-line textual form; the inverse of
    /// `encode_entry` on every well-formed entry.
    pub fn from_json(serialized: &str) -> (r: Result<Entry, MalformedEntry>)
        ensures
            match r {
                Ok(e) => spec_decode_entry(serialized@) == Some(e@) && e.wf(),
                Err(_) => spec_decode_entry(serialized@) is None,
            },
    {
        decode_entry(serialized)
    }
}

/// Store entries as they stand on the wire: each under its own identifier.
pub open spec fn as_wire_views(vs: Seq<EntryView>) -> Seq<WireView> {
    vs.map_values(
        |v: EntryView| WireView { id: Some(v.id), message: v.message, time_created: v.time_created },
    )
}

/// With two or more pieces, the join is the first piece, a comma, and the
/// join of the rest.
proof fn lemma_join_head(xs: Seq<Seq<char>>)
    requires
        xs.len() >= 2,
    ensures
        comma_join(xs) == xs[0] + k_comma() + comma_join(xs.drop_first()),
    decreases xs.len(),
{
    if xs.len() == 2 {
        assert(xs.drop_last() =~= seq![xs[0]]);
        assert(xs.drop_first() =~= seq![xs[1]]);
        assert(comma_join(xs) == comma_join(xs.drop_last()) + k_comma() + xs.last());
        assert(comma_join(seq![xs[0]]) == xs[0]);
        assert(comma_join(seq![xs[1]]) == xs[1]);
    } else {
        let dl = xs.drop_last();
        lemma_join_head(dl);
        assert(dl[0] == xs[0]);
        assert(comma_join(xs) == (xs[0] + k_comma() + comma_join(dl.drop_first())) + k_comma()
            + xs.last());
        let df = xs.drop_first();
        assert(df.len() >= 2);
        assert(df.drop_last() =~= dl.drop_first());
        assert(df.last() == xs.last());
        assert(comma_join(df) == comma_join(dl.drop_first()) + k_comma() + xs.last());
        assert(comma_join(xs) =~= xs[0] + k_comma() + comma_join(df));
    }
}

/// A join of n pieces takes at least n - 1 characters: the commas alone.
proof fn lemma_join_len(xs: Seq<Seq<char>>)
    ensures
        comma_join(xs).len() + 1 >= xs.len(),
    decreases xs.len(),
{
    if xs.len() >= 2 {
        lemma_join_len(xs.drop_last());
    }
}

/// One encoded entry just before the closing bracket is the last element.
proof fn lemma_decode_list_single(v: EntryView, fuel: nat)
    ensures
        spec_decode_list(spec_encode_entry(v) + k_rbrack(), fuel) == Some(
            seq![WireView { id: Some(v.id), message: v.message, time_created: v.time_created }],
        ),
{
    lemma_decode_wire_prefix_of_encode(v, k_rbrack());
}

/// One encoded entry, a comma and more list text reads as that entry in
/// front of whatever the rest reads as.
proof fn lemma_decode_list_cons(v: EntryView, tail: Seq<char>, fuel: nat)
    requires
        fuel >= 1,
    ensures
        spec_decode_list(spec_encode_entry(v) + (k_comma() + tail), fuel) == match spec_decode_list(
            tail,
            (fuel - 1) as nat,
        ) {
            Some(ws) => Some(
                seq![WireView { id: Some(v.id), message: v.message, time_created: v.time_created }]
                    + ws,
            ),
            None => None,
        },
{
    let rest = k_comma() + tail;
    lemma_decode_wire_prefix_of_encode(v, rest);
    assert(rest[0] == ',');
    assert(rest != k_rbrack()) by {
        if rest == k_rbrack() {
            assert(rest[0] == ']');
        }
    }
    assert(rest.subrange(0, 1) =~= k_comma());
    assert(starts_with(rest, k_comma()));
    assert(rest.skip(1) =~= tail);
}

/// Reading a non-empty joined list of encoded entries, with the closing
/// bracket behind it, gives back exactly those entries, under any fuel that
/// admits them all.
#[verifier::rlimit(60)]
proof fn lemma_decode_list_of_encodes(vs: Seq<EntryView>, fuel: nat)
    requires
        vs.len() >= 1,
        fuel + 1 >= vs.len(),
    ensures
        spec_decode_list(
            comma_join(vs.map_values(|v: EntryView| spec_encode_entry(v))) + k_rbrack(),
            fuel,
        ) == Some(as_wire_views(vs)),
    decreases vs.len(),
{
    let es = vs.map_values(|v: EntryView| spec_encode_entry(v));
    let w0 = WireView { id: Some(vs[0].id), message: vs[0].message, time_created: vs[0].time_created };
    if vs.len() == 1 {
        assert(comma_join(es) == es[0]);
        assert(es[0] == spec_encode_entry(vs[0]));
        lemma_decode_list_single(vs[0], fuel);
        assert(comma_join(es) + k_rbrack() =~= spec_encode_entry(vs[0]) + k_rbrack());
        assert(seq![w0] =~= as_wire_views(vs));
    } else {
        lemma_join_head(es);
        let vs2 = vs.drop_first();
        let es2 = vs2.map_values(|v: EntryView| spec_encode_entry(v));
        assert(es.drop_first() =~= es2);
        let tail = comma_join(es2) + k_rbrack();
        assert(comma_join(es) + k_rbrack() =~= spec_encode_entry(vs[0]) + (k_comma() + tail));
        assert(fuel >= 1);
        lemma_decode_list_cons(vs[0], tail, fuel);
        lemma_decode_list_of_encodes(vs2, (fuel - 1) as nat);
        assert(spec_decode_list(comma_join(es) + k_rbrack(), fuel) == Some(
            seq![w0] + as_wire_views(vs2),
        ));
        assert(seq![w0] + as_wire_views(vs2) =~= as_wire_views(vs));
    }
}

/// Bulk round trip: decoding an encoded store gives back every entry, in
/// order, each under its own identifier.
pub proof fn lemma_entries_round_trip(vs: Seq<EntryView>)
    ensures
        spec_decode_entries(spec_encode_entries(vs)) == Some(as_wire_views(vs)),
{
    let es = vs.map_values(|v: EntryView| spec_encode_entry(v));
    let s = spec_encode_entries(vs);
    let s1 = comma_join(es) + k_rbrack();
    assert(s =~= k_lbrack() + s1);
    lemma_expect_prefix(k_lbrack(), s1);
    if vs.len() == 0 {
        assert(comma_join(es) == Seq::<char>::empty());
        assert(s1 =~= k_rbrack());
        assert(as_wire_views(vs) =~= Seq::<WireView>::empty());
    } else {
        lemma_join_len(es);
        assert(s1.len() >= vs.len());
        assert(s1 != k_rbrack()) by {
            let e0 = spec_encode_entry(vs[0]);
            assert(e0.len() >= 1);
            if vs.len() == 1 {
                assert(comma_join(es) == e0);
                assert(s1.len() >= 2);
            } else {
                lemma_join_head(es);
                assert(s1.len() >= 2);
            }
        }
        lemma_decode_list_of_encodes(vs, s1.len());
    }
}

} // verus!
