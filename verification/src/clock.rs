//! The one question the library asks the clock: today's calendar date in the
//! local timezone, as a `YYYY-MM-DD` string. The clock's answer is checked,
//! not trusted: a formatted date outside that shape (a year of five or more
//! digits carries a sign or extra digits) falls back to the epoch date.

use vstd::prelude::*;
use crate::text::to_chars;

verus! {

/// A calendar date in `YYYY-MM-DD` form: ten characters, hyphens after the
/// year and the month, digits everywhere else.
pub open spec fn is_date(s: Seq<char>) -> bool {
    s.len() == 10 && forall|i: int|
        0 <= i < 10 ==> if i == 4 || i == 7 {
            s[i] == '-'
        } else {
            '0' <= #[trigger] s[i] && s[i] <= '9'
        }
}

/// Whether `s` is a `YYYY-MM-DD` date string.
pub fn is_date_str(s: &str) -> (r: bool)
    ensures
        r == is_date(s@),
{
    let v = to_chars(s);
    if v.len() != 10 {
        return false;
    }
    let mut i: usize = 0;
    while i < 10
        invariant
            v@ == s@,
            v@.len() == 10,
            i <= 10,
            forall|j: int|
                0 <= j < i ==> if j == 4 || j == 7 {
                    s@[j] == '-'
                } else {
                    '0' <= #[trigger] s@[j] && s@[j] <= '9'
                },
        decreases 10 - i,
    {
        let c = v[i];
        if i == 4 || i == 7 {
            if c != '-' {
                return false;
            }
        } else {
            if !('0' <= c && c <= '9') {
                return false;
            }
        }
        i = i + 1;
    }
    true
}

/// Relies on `chrono::Local::now` formatted with `%Y-%m-%d` for the local
/// wall-clock date. Nothing is assumed of the text: a clock set to a year
/// beyond four digits makes `%Y` write a sign or extra digits.
#[verifier::external_body]
fn local_today_text() -> String {
    chrono::Local::now().format("%Y-%m-%d").to_string()
}

/// Today in the local timezone as a `YYYY-MM-DD` string; the epoch date
/// when the clock's answer is not in that shape.
pub fn today_string() -> (r: String)
    ensures
        is_date(r@),
{
    let t = local_today_text();
    if is_date_str(t.as_str()) {
        t
    } else {
        let f = String::from_str("1970-01-01");
        proof {
            reveal_strlit("1970-01-01");
            assert(is_date(f@));
        }
        f
    }
}

} // verus!
