//! Disk usage ranked by effective size.
//!
//! Every file and directory of a tree gets an entry with its total size. A
//! directory is ranked by its total size without its largest child, so that
//! a directory ranks high only if it is large apart from one outsized
//! subtree. Collectors take the entries and report the eight highest-ranked.
//!
//! * `entry`, `rank`: the entries and the order they are ranked by.
//! * `top`, `heap`, `collector`: the highest-ranked entries of a collection,
//!   kept either in full or in a bounded min-heap.
//! * `dir_scan`: the scan of one directory, fed step by step by whoever
//!   reads the filesystem.
//! * `tree`, `scanner`, `scanner_laws`: a listed tree as plain values, the
//!   two walks over it, and what holds of them.

pub mod collector;
pub mod dir_scan;
pub mod entry;
pub mod heap;
pub mod rank;
pub mod scanner;
pub mod scanner_laws;
pub mod top;
pub mod tree;
