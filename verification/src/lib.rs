//! A personal work log: timestamped text entries kept in an id-keyed store,
//! exchanged between two stores over a line protocol or a bulk HTTP push and
//! pull, and reconciled by an idempotent merge rule that never duplicates an
//! entry and never loses one.

pub mod clock;
pub mod codec;
pub mod entry;
pub mod http;
pub mod ids;
pub mod protocol;
pub mod store;
pub mod text;
