//! One timestamped text note. An entry is immutable once constructed; its
//! identifier is the sole key used for deduplication during synchronization.

use vstd::prelude::*;
use crate::clock::{is_date, today_string};
use crate::ids::{fresh_entry_id, is_uuid};
use crate::text::{lemma_trim_idempotent, spec_trim, trim_spaces};

verus! {

/// An identified, timestamped text note.
pub struct Entry {
    /// Hyphenated textual UUID; immutable and the sole deduplication key.
    pub id: String,
    /// Free-form text, stored with surrounding whitespace trimmed.
    pub message: String,
    /// Calendar date in `YYYY-MM-DD` form; no time-of-day component.
    pub time_created: String,
}

/// The mathematical value of an entry: its three fields as character
/// sequences.
pub ghost struct EntryView {
    pub id: Seq<char>,
    pub message: Seq<char>,
    pub time_created: Seq<char>,
}

/// An entry is well formed when its identifier is a canonical textual UUID
/// and its message carries no surrounding whitespace: a stored message is
/// always the trimmed text.
pub open spec fn valid_entry(v: EntryView) -> bool {
    is_uuid(v.id) && v.message == spec_trim(v.message)
}

impl View for Entry {
    type V = EntryView;

    open spec fn view(&self) -> EntryView {
        EntryView { id: self.id@, message: self.message@, time_created: self.time_created@ }
    }
}

impl Clone for Entry {
    fn clone(&self) -> (r: Self)
        ensures
            r@ == self@,
    {
        Entry {
            id: self.id.clone(),
            message: self.message.clone(),
            time_created: self.time_created.clone(),
        }
    }
}

impl Entry {
    /// Well-formedness: the identifier is a canonical textual UUID and the
    /// message is trimmed.
    pub open spec fn wf(&self) -> bool {
        valid_entry(self@)
    }

    /// A new entry dated today, under a fresh identifier, with the message
    /// trimmed of surrounding whitespace.
    pub fn now(message: &String) -> (r: Self)
        ensures
            r.wf(),
            r@.message == spec_trim(message@),
            is_date(r@.time_created),
    {
        proof {
            lemma_trim_idempotent(message@);
        }
        Entry { id: fresh_entry_id(), message: trim_spaces(message.as_str()), time_created: today_string() }
    }

    /// An entry carrying an explicit date, under the given identifier when
    /// one is supplied and a fresh one otherwise.
    pub fn from_date(id: &Option<String>, date: &String, message: &String) -> (r: Self)
        requires
            id matches Some(s) ==> is_uuid(s@),
        ensures
            r.wf(),
            id matches Some(s) ==> r@.id == s@,
            r@.message == spec_trim(message@),
            r@.time_created == date@,
    {
        proof {
            lemma_trim_idempotent(message@);
        }
        let fresh = match id {
            Some(s) => s.clone(),
            None => fresh_entry_id(),
        };
        Entry { id: fresh, message: trim_spaces(message.as_str()), time_created: date.clone() }
    }

    /// An entry for a past date, under a fresh identifier.
    pub fn from_past(date: &String, message: &String) -> (r: Self)
        ensures
            r.wf(),
            r@.message == spec_trim(message@),
            r@.time_created == date@,
    {
        Entry::from_date(&None, date, message)
    }
}

} // verus!
