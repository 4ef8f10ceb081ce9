//! Entry identifiers: the textual UUID form that keys deduplication, its
//! validity predicate, and the generation of a fresh identifier.

use vstd::prelude::*;
use crate::text::to_chars;

verus! {

/// A hexadecimal digit, either case.
pub open spec fn is_hex_char(c: char) -> bool {
    ('0' <= c && c <= '9') || ('a' <= c && c <= 'f') || ('A' <= c && c <= 'F')
}

/// A lowercase hexadecimal digit.
pub open spec fn is_lower_hex(c: char) -> bool {
    ('0' <= c && c <= '9') || ('a' <= c && c <= 'f')
}

/// The canonical textual form of a UUID: 36 characters, hyphens at
/// positions 8, 13, 18 and 23, lowercase hexadecimal digits everywhere
/// else. One identifier has one spelling, so equal ids mean equal text.
pub open spec fn is_uuid(s: Seq<char>) -> bool {
    s.len() == 36 && forall|i: int|
        0 <= i < 36 ==> if i == 8 || i == 13 || i == 18 || i == 23 {
            s[i] == '-'
        } else {
            is_lower_hex(#[trigger] s[i])
        }
}

fn is_lower_hex_digit(c: char) -> (r: bool)
    ensures
        r == is_lower_hex(c),
{
    ('0' <= c && c <= '9') || ('a' <= c && c <= 'f')
}

/// An uppercase hexadecimal digit folded to lowercase; anything else kept.
pub open spec fn lower_id_char(c: char) -> char {
    if c == 'A' { 'a' } else if c == 'B' { 'b' } else if c == 'C' { 'c' }
    else if c == 'D' { 'd' } else if c == 'E' { 'e' } else if c == 'F' { 'f' }
    else { c }
}

/// The canonical spelling of an identifier read off the wire: uppercase
/// hexadecimal digits folded to lowercase, everything else untouched.
pub open spec fn norm_id(s: Seq<char>) -> Seq<char> {
    s.map_values(|c: char| lower_id_char(c))
}

/// Folds an identifier to its canonical spelling.
pub fn normalize_id(s: &str) -> (r: String)
    ensures
        r@ == norm_id(s@),
{
    let v = to_chars(s);
    let mut out: Vec<char> = Vec::new();
    let mut i: usize = 0;
    while i < v.len()
        invariant
            v@ == s@,
            i <= v@.len(),
            out@ == norm_id(s@.subrange(0, i as int)),
        decreases v@.len() - i,
    {
        let c = v[i];
        let folded = if c == 'A' { 'a' } else if c == 'B' { 'b' } else if c == 'C' { 'c' }
        else if c == 'D' { 'd' } else if c == 'E' { 'e' } else if c == 'F' { 'f' }
        else { c };
        assert(folded == lower_id_char(c));
        out.push(folded);
        assert(out@ =~= norm_id(s@.subrange(0, i as int + 1)));
        i = i + 1;
    }
    assert(out@ =~= norm_id(s@));
    crate::text::from_chars(&out)
}

/// A canonical identifier folds to itself.
pub proof fn lemma_norm_id_of_uuid(s: Seq<char>)
    requires
        is_uuid(s),
    ensures
        norm_id(s) == s,
{
    assert forall|i: int| 0 <= i < s.len() implies norm_id(s)[i] == s[i] by {
        assert(norm_id(s)[i] == lower_id_char(s[i]));
        if i == 8 || i == 13 || i == 18 || i == 23 {
            assert(s[i] == '-');
        } else {
            assert(is_lower_hex(s[i]));
        }
    }
    assert(norm_id(s) =~= s);
}

/// Whether `s` is a hyphenated textual UUID.
pub fn is_uuid_str(s: &str) -> (r: bool)
    ensures
        r == is_uuid(s@),
{
    let v = to_chars(s);
    if v.len() != 36 {
        return false;
    }
    let mut i: usize = 0;
    while i < 36
        invariant
            v@ == s@,
            v@.len() == 36,
            i <= 36,
            forall|j: int|
                0 <= j < i ==> if j == 8 || j == 13 || j == 18 || j == 23 {
                    s@[j] == '-'
                } else {
                    is_lower_hex(#[trigger] s@[j])
                },
        decreases 36 - i,
    {
        let c = v[i];
        if i == 8 || i == 13 || i == 18 || i == 23 {
            if c != '-' {
                return false;
            }
        } else {
            if !is_lower_hex_digit(c) {
                return false;
            }
        }
        i = i + 1;
    }
    true
}

/// Relies on `uuid::Uuid::new_v4` and its `Display` impl: a fresh random
/// UUID printed in the hyphenated form, 8-4-4-4-12 lowercase hexadecimal
/// digits. Nothing is assumed about which UUID comes back.
#[verifier::external_body]
pub fn fresh_entry_id() -> (r: String)
    ensures
        is_uuid(r@),
{
    uuid::Uuid::new_v4().to_string()
}

} // verus!
