//! Counting the lines of text-like files.
//!
//! - [`lines`] says what a line count is, as a function of the bytes of a
//!   stream, in the raw mode and in the mode that skips lines without content.
//! - [`counter`] holds the counter that takes a stream chunk by chunk, and the
//!   two counts of a stream that is held in memory.
//! - [`ext`] is the filter on file extensions.
//! - [`walk`] holds the traversal of a directory tree, one level deep or
//!   depth-first through all levels, and [`tree`] the tree as plain values.
//! - [`process`] says what one file adds to a total, and what the total of a
//!   directory is.
//! - [`options`] reads the flags of the command line.

pub mod counter;
pub mod ext;
pub mod lines;
pub mod options;
pub mod process;
mod text;
pub mod tree;
pub mod walk;
