//! Core library of a reproducible package-build orchestrator.
//!
//! The library holds the verified logic of the build pipeline: typed store
//! paths and the content-addressed file store, the source-hash verifier with
//! its streaming digest pipeline, the dependency-tree builder with its cycle
//! rejection, the parser for in-band log markers on container output, and
//! the row-building logic behind the journal queries.  All file, network and
//! database I/O stays outside, in the binary around this crate; the
//! functions here take and return plain values.

pub mod dbshell;
pub mod dec;
pub mod log;
pub mod filestore;
pub mod hashes;
pub mod journal;
pub mod repo;
pub mod schedule;
pub mod source;
pub mod store_path;
pub mod tree;
