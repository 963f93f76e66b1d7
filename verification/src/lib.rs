//! A verified core for an `lsof`-style tool: given the textual contents of a
//! process pseudo-filesystem (one record per live process), build a
//! bidirectional index from processes to the file identifiers they hold and
//! back, and answer queries against it.
//!
//! All filesystem reading is left to the (unverified) caller; every function
//! here works on plain values and carries a proved contract.

pub mod data;
pub mod filetype;
pub mod folds;
pub mod interner;
pub mod maps;
pub mod procstat;
pub mod records;
pub mod scan;
pub mod sets;
pub mod strutil;
