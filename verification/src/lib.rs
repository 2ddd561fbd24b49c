//! Packaging a directory tree as a named collection of blobs, and following
//! the progress of a transfer.
pub mod args;
pub mod collection;
pub mod path;
pub mod progress;
