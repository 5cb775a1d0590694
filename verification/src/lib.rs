//! Renders a directory snapshot as a tree diagram followed by the contents of
//! its files.
//!
//! The caller lists the directories and reads the files; this crate decides
//! which entries are shown, in which order, and how every line of the result
//! is written. Each function carries a contract that Verus checks.

pub mod content;
pub mod content_laws;
pub mod entry;
pub mod options;
pub mod order;
pub mod report;
pub mod report_laws;
pub mod stable_order;
pub mod text;
pub mod tree;
pub mod tree_laws;
pub mod walker;
pub mod walker_laws;
