//! A directory-tree visualization engine.
//!
//! The library renders an in-memory directory tree as a text diagram in the
//! style of the classic `tree` utility: entries are listed per directory in
//! lexicographic order of their base names, hidden entries (names starting
//! with a dot) are skipped, box-drawing connector glyphs mark sibling and
//! child relationships, and a pair of directory/file counts is accumulated
//! for a final summary line.
//!
//! Reading directories from disk, command-line handling and the optional
//! colorization of names are left to the surrounding program; the library
//! works on plain values and states exactly what it produces for them.

pub mod counts;
pub mod lister;
pub mod order;
pub mod prefix;
pub mod render;
pub mod tree;
pub mod version;
pub mod walker;
