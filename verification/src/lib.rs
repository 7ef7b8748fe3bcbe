//! bfiles: a directory size analyzer. This crate holds the verified core:
//! the column-oriented directory tree, the summary that is shown to the
//! user, the text layout of that summary, the line protocol used for remote
//! scans, and the classification of directory entries.

pub mod cli;
pub mod layout;
pub mod protocol;
pub mod ranking;
pub mod remote;
pub mod roundtrip;
pub mod scan;
pub mod shell;
pub mod size;
pub mod summary;
pub mod text;
pub mod tree;
