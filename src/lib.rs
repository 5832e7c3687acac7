//! Content-addressable directory-tree deduplication: builds a tree of
//! directories and files from flat file records, gives every directory a
//! digest folded from its children, and reports colliding digests.

pub mod analyser;
pub mod digest;
pub mod duplicates;
pub mod graph;
pub mod index_db;
pub mod misc;
pub mod parallel;
pub mod tree;
