//! Turns a set of package manifests into a single pinned build description:
//! manifests are merged into one synthetic workspace, the upstream resolver
//! pins the transitive dependency graph, a content digest is computed over
//! every input that can affect the output, and the graph is consolidated into
//! a canonically ordered model from which the build description is derived.
pub mod config;
pub mod consolidator;
pub mod dict;
pub mod document;
pub mod digest;
pub mod laws;
pub mod merger;
pub mod model;
pub mod platform;
pub mod renderer;
pub mod resolver;
pub mod strutil;
pub mod versions;
