//! Native reader of a git repository's on-disk state, for rendering a status
//! line without invoking the git binary for common queries.
//!
//! The crate covers reference resolution (what HEAD points at), detection of
//! in-progress operations from control files, stash counting, parsing of the
//! machine-readable status stream, and the commit-hash abbreviation engine:
//! the shortest hex prefix that unambiguously names a commit against both
//! loose objects and binary pack index files.  All filesystem access stays
//! with the caller; every function here works on plain values read from disk.

pub mod hex;
pub mod pack;
pub mod abbrev;
pub mod text;
pub mod refs;
pub mod lines;
pub mod state;
pub mod config;
pub mod fmt;
pub mod status;
pub mod porcelain;
pub mod width;
