//! Aggregation of block-list entries from many text sources.
//!
//! The crate parses raw source bodies into normalized entries, merges the
//! per-source entry sets into one deduplicated whole, and produces a sorted
//! output sequence. Fetching the bodies and writing the result are left to
//! the caller; everything here is pure computation with verified contracts.

pub mod entries;
pub mod parse;
pub mod pipeline;
pub mod text;

pub use entries::EntrySet;
pub use parse::parse;
pub use parse::parse_set;
pub use pipeline::aggregate;
pub use pipeline::publish;
pub use pipeline::run_source;
pub use pipeline::FailureReport;
pub use pipeline::Fetched;
pub use pipeline::SourceResult;
pub use text::is_wsp;
pub use text::lex_lt;
pub use text::str_lt;
