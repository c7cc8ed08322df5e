//! A verified core for a markdown-based personal time-tracking log.
//!
//! The crate parses a markdown timelog (date headings followed by bullet
//! lists of time spans) into a sorted collection of entries, and aggregates
//! those entries into reports by calendar date and by project name.

pub mod commands;
pub mod date;
pub mod entry;
pub mod md;
pub mod report;
pub mod text;
pub mod timelog;
pub mod utils;

pub use commands::NoSuchFileError;
pub use commands::parse_file_path;
pub use date::Date;
pub use date::DateRange;
pub use entry::DateTime;
pub use entry::Entry;
pub use entry::Time;
pub use report::Fill;
pub use report::Report;
pub use report::TextReport;
pub use timelog::Log;
pub use utils::pad_dates;
