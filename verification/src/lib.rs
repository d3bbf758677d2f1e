//! Repository activity scanning: the rules that turn the commit histories of
//! the repositories below a directory into a time-windowed, author-filtered
//! and recency-ordered report.
//!
//! The crate holds no I/O. A caller lists directories and reads commit
//! histories; every decision on what was read is made here.

pub mod calendar;
pub mod discovery;
pub mod extract;
pub mod model;
pub mod period;
pub mod ranking;
pub mod scan;
pub mod text;
pub mod tree;
