//! A queryable index over hierarchical disk-usage reports.
//!
//! A report is a plain-text file listing directories and files with
//! human-readable size annotations.  This crate parses such a report into
//! an in-memory index and answers queries over it: directory listings,
//! substring search, top-N largest files, and an aggregate summary.

pub mod bytes;
pub mod laws;
pub mod query;
pub mod records;
pub mod scan;
pub mod session;
pub mod size;
pub mod store;
pub mod text;
