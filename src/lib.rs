//! Bulk import of a line-delimited dictionary dump into SQLite: records are
//! gathered into batches, lookup rows (languages, parts of speech) are
//! created once and cached, and each batch is written in one transaction.

mod store;
pub mod entry;
pub mod cache;
pub mod batch;
pub mod db;

pub use batch::{is_blank, split_batches, Batcher, Decoded, ParseStats};
pub use cache::{LabelCache, PairCache};
pub use db::{word_outcome, BatchReport, DbError, ErrorKind, Inbound, Rusqlite, RunReport, Step};
pub use entry::{Form, Word};
