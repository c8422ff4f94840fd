//! Revset engine of a version-control tool: a small expression language that
//! names and combines commits in a content-addressed commit graph, together
//! with the workspace structure that anchors a repository on disk.
//!
//! The core is the revset parser, the symbol resolver and the graph
//! evaluator: multi-tier name resolution with ambiguity detection, and a
//! deterministic depth-first linearization of the ancestry graph.

pub mod fspath;
pub mod hex;
pub mod repo;
pub mod revset;
pub mod store;
pub mod workspace;
