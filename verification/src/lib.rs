//! A reader for TTB v1 resource bundles and a BibTeX auxiliary-file
//! command interpreter.
//!
//! The bundle side parses the fixed 70-byte header, decompresses and parses
//! the embedded index, and resolves logical file names against the bundle's
//! search rules. The auxiliary side interprets `\bibdata`, `\bibstyle`,
//! `\citation` and `\@input` commands, keeping cite keys, database files and
//! a bounded stack of nested auxiliary inputs.

pub mod auxdata;
pub mod bundle;
pub mod bytes;
pub mod gz;
pub mod header;
pub mod index;
pub mod interp;
pub mod laws;
