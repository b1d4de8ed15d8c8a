//! Shared data model: the error taxonomy, the resolved crate graph as plain
//! values, and the dependency edges the consolidator folds per platform.
use crate::dict::{strings_sorted_unique, Dict};
use vstd::prelude::*;

verus! {

/// Per-crate side data carried from the configuration into consolidation:
/// extra environment variables, extra build-tool dependencies keyed by
/// platform selector, and features to drop after resolution. All containers
/// are ordered.
pub struct ConsolidatorOverride {
    pub extra_rust_env_vars: Dict<String>,
    pub extra_build_script_env_vars: Dict<String>,
    pub extra_bazel_deps: Dict<Vec<String>>,
    pub extra_bazel_data_deps: Dict<Vec<String>>,
    pub extra_build_script_bazel_deps: Dict<Vec<String>>,
    pub extra_build_script_bazel_data_deps: Dict<Vec<String>>,
    pub features_to_remove: Vec<String>,
}

impl ConsolidatorOverride {
    /// Every container ordered: the maps by key, the feature set by name.
    pub open spec fn wf(self) -> bool {
        &&& self.extra_rust_env_vars.wf()
        &&& self.extra_build_script_env_vars.wf()
        &&& self.extra_bazel_deps.wf()
        &&& self.extra_bazel_data_deps.wf()
        &&& self.extra_build_script_bazel_deps.wf()
        &&& self.extra_build_script_bazel_data_deps.wf()
        &&& strings_sorted_unique(self.features_to_remove@)
    }
}

/// Every failure the pipeline can report. Names describe causes.
#[derive(Debug)]
pub enum Error {
    /// Malformed or incomplete input document.
    ConfigParse(String),
    /// A manifest could not be read as a dependency table.
    ManifestParse(String),
    /// Two manifests declare the same dependency name with unequal
    /// specifications.
    ManifestConflict(String),
    /// More than one manifest declares a patch section.
    PatchConflict,
    /// The upstream resolver failed, or handed back values this pipeline
    /// cannot evaluate.
    ResolveFailed(String),
    /// A direct dependency has requirements that no resolved version
    /// satisfies.
    NoCommonVersion(String),
    /// A platform selector is neither a configured triple, nor a recognized
    /// predicate.
    UnknownPredicate(String),
    /// Two overrides want the same environment key.
    OverrideKeyCollision(String),
    /// A temporary-file or path error outside this library.
    IoError(String),
    /// Template substitution failed; unreachable with a correct model.
    RenderError(String),
}

/// The kind of a dependency requirement in an input manifest.
#[derive(PartialEq, Eq, Structural, Clone, Copy, Debug)]
pub enum DepKind {
    Normal,
    Build,
    Development,
    Unknown,
}

/// One requirement edge of a workspace member: dependency name, requirement
/// string, and kind.
pub struct MemberDep {
    pub name: String,
    pub req: String,
    pub kind: DepKind,
}

/// Where a resolved crate's archive comes from.
pub enum PackageSource {
    /// Fetched from the registry through the URL template.
    Registry,
    /// Fetched from a git remote at a pinned commit; `path_in_repo` is the
    /// crate's sub-path inside the checkout, empty for a top-level crate.
    Git { remote: String, commit: String, path_in_repo: String },
}

/// The kind of a build target inside a crate archive.
#[derive(PartialEq, Eq, Structural, Clone, Copy, Debug)]
pub enum TargetKind {
    Library,
    Binary,
    ProcMacro,
    BuildScript,
}

/// One build target of a crate: its kind and the crate-root path relative to
/// the archive.
pub struct BuildTarget {
    pub kind: TargetKind,
    pub name: String,
    pub crate_root: String,
}

/// The category of a resolved dependency edge.
#[derive(PartialEq, Eq, Structural, Clone, Copy, Debug)]
pub enum EdgeKind {
    Normal,
    Build,
    ProcMacro,
    Development,
}

/// One resolved dependency edge: the dependency crate, pinned version, the
/// category, and the local alias when the depending crate renames it.
pub struct DepEdge {
    pub name: String,
    pub version: String,
    pub kind: EdgeKind,
    pub alias: Option<String>,
}

/// One crate of the fully pinned graph, as the upstream resolver reported it,
/// with per-platform-triple edge and feature sets.
pub struct ResolvedPackage {
    pub name: String,
    pub version: String,
    pub source: PackageSource,
    pub license: String,
    pub edition: String,
    pub targets: Vec<BuildTarget>,
    /// For each configured triple, the dependency edges active on it.
    pub deps_by_triple: Vec<(String, Vec<DepEdge>)>,
    /// For each configured triple, the enabled feature names.
    pub features_by_triple: Vec<(String, Vec<String>)>,
    /// The native library this crate links, from its manifest `links` key.
    pub links: Option<String>,
    /// Targets the generator omits, as (name, type) pairs for comment stubs.
    pub unsupported_targets: Vec<(String, String)>,
}

} // verus!
