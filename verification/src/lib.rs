//! Loading tables exactly once: the write-ahead log a run can be resumed from, how batches fit
//! the tables they load into, and the values tasks wait on.

pub mod error;
pub mod search;
pub mod table;
pub mod text;
pub mod wal;
pub mod watch;
