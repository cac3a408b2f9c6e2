//! A tree-like listing of a directory, with its logic proved.
//!
//! The library decides what a traversal reports and in which order; listing a
//! directory and printing a line are left to its caller. A [`Walker`] names the
//! directory that it needs listed, takes the listing, and adds to its transcript.

pub mod args;
pub mod laws;
pub mod listing;
pub mod name;
pub mod record;
pub mod tree;
pub mod walker;

pub use crate::args::{Args, ArgsError};
pub use crate::listing::{Entry, EntryKind};
pub use crate::record::Record;
pub use crate::walker::Walker;
