//! A document presented as a mutable filesystem: an index-addressed inode
//! table built from a tree of values, and the filesystem operations on it.
//!
//! Every function states what it returns and how it changes the table over
//! the table's view, a sequence of optional inode views. The operations keep
//! the table well formed ([`fs::table_wf`]).

pub mod audit;
pub mod changes;
pub mod config;
pub mod errno;
pub mod fs;
pub mod json;
pub mod laws;
pub mod mutate;
pub mod names;
pub mod ops;
pub mod reach;
pub mod roundtrip;
pub mod save;
pub mod value;
