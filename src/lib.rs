//! Merging the `use` declarations of a source file that holds git conflicts:
//! the imports of both sides of every conflict become one canonical,
//! sorted, grouped set, written back in place of the old ones.
pub mod bridge;
pub mod bytes;
pub mod common;
pub mod docprint;
pub mod extract;
pub mod fix;
pub mod flattened;
pub mod gitfile;
pub mod laws;
pub mod parsers;
pub mod pretty;
pub mod printable;
pub mod state;
pub mod syntax;
pub mod tree;
pub mod write_file;
