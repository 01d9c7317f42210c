//! Merging of independently sorted log streams.
//!
//! The crate parses timestamped log lines into [`record::Item`] values and
//! interleaves several individually sorted streams of them into one globally
//! ordered stream with a k-way merge.

pub mod merging;
pub mod parser;
pub mod record;

pub use merging::merge;
pub use parser::parse_logs;
pub use parser::MalformedLogLine;
pub use parser::MalformedReason;
pub use record::Item;
pub use record::ItemView;
