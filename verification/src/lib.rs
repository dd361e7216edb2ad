//! Counts the files contained, recursively, within a directory tree, and
//! proves that two execution strategies agree: a single-threaded
//! breadth-first walk, and a coordinator that hands each round of directory
//! listings to a worker pool and merges the results in whatever order they
//! complete.
//!
//! The tree itself is modelled in memory: directories are plain identifiers,
//! and each either carries its listing (a file count and subdirectory
//! identifiers) or the mark that it cannot be read. A program that walks a
//! real filesystem keeps the mapping from identifiers to paths, performs the
//! listing I/O, and drives [`TraversalCoordinator`] round by round with the
//! results.

pub mod coordinator;
pub mod laws;
pub mod sequential;
pub mod tree;

pub use coordinator::TraversalCoordinator;
pub use sequential::count_files;
pub use tree::{DirNode, ListingResult, ReadDirError, RootEntry, Tree};
