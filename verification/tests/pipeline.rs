//! End-to-end scenarios over the structured model: merging, resolution
//! ordering, consolidation, and the target-name table.
use rules_rust_external::consolidator::{Consolidator, ConsolidatorConfig};
use rules_rust_external::dict::Dict;
use rules_rust_external::merger::{merge_manifest_deps, ManifestDep, ManifestInput};
use rules_rust_external::model::{
    BuildTarget, ConsolidatorOverride, DepEdge, EdgeKind, Error, PackageSource, ResolvedPackage,
    TargetKind,
};
use rules_rust_external::platform::Selector;
use rules_rust_external::renderer::RenderConfig;
use rules_rust_external::resolver::sort_resolved;

fn s(x: &str) -> String {
    x.to_string()
}

fn dep(name: &str, spec: &str) -> ManifestDep {
    ManifestDep { name: s(name), spec: s(spec) }
}

fn empty_override() -> ConsolidatorOverride {
    ConsolidatorOverride {
        extra_rust_env_vars: Dict::from_pairs(&mut Vec::new()).unwrap(),
        extra_build_script_env_vars: Dict::from_pairs(&mut Vec::new()).unwrap(),
        extra_bazel_deps: Dict::from_pairs(&mut Vec::new()).unwrap(),
        extra_bazel_data_deps: Dict::from_pairs(&mut Vec::new()).unwrap(),
        extra_build_script_bazel_deps: Dict::from_pairs(&mut Vec::new()).unwrap(),
        extra_build_script_bazel_data_deps: Dict::from_pairs(&mut Vec::new()).unwrap(),
        features_to_remove: Vec::new(),
    }
}

fn lib_target(name: &str) -> BuildTarget {
    BuildTarget { kind: TargetKind::Library, name: s(name), crate_root: s("src/lib.rs") }
}

fn edge(name: &str, version: &str, kind: EdgeKind) -> DepEdge {
    DepEdge { name: s(name), version: s(version), kind, alias: None }
}

fn registry_package(name: &str, version: &str, triples: &[&str]) -> ResolvedPackage {
    ResolvedPackage {
        name: s(name),
        version: s(version),
        source: PackageSource::Registry,
        license: s("MIT"),
        edition: s("2015"),
        targets: vec![lib_target(name)],
        deps_by_triple: triples.iter().map(|t| (s(t), Vec::new())).collect(),
        features_by_triple: triples.iter().map(|t| (s(t), Vec::new())).collect(),
        links: None,
        unsupported_targets: Vec::new(),
    }
}

fn consolidator_for(
    triples: &[&str],
    packages: Vec<ResolvedPackage>,
    overrides: Vec<(String, ConsolidatorOverride)>,
    chosen: Vec<(String, String)>,
) -> Consolidator {
    let mut ovr = overrides;
    let mut ch = chosen;
    Consolidator {
        consolidator_config: ConsolidatorConfig {
            overrides: Dict::from_pairs(&mut ovr).unwrap(),
        },
        render_config: RenderConfig { repository_template: s("https://ex/{name}/{version}") },
        digest: s("d0"),
        target_triples: triples.iter().map(|t| s(t)).collect(),
        resolved_packages: packages,
        member_packages_version_mapping: Dict::from_pairs(&mut ch).unwrap(),
        label_to_crates: Dict::from_pairs(&mut Vec::new()).unwrap(),
    }
}

#[test]
fn merging_unions_tables_and_records_labels() {
    let manifests = vec![
        ManifestInput {
            label: s("//a:Cargo.toml"),
            deps: vec![dep("serde", "{version=\"1\"}"), dep("log", "{version=\"0.4\"}")],
            patch: None,
        },
        ManifestInput {
            label: s("//b:Cargo.toml"),
            deps: vec![dep("serde", "{version=\"1\"}"), dep("rand", "{version=\"0.8\"}")],
            patch: Some(s("[patch.crates-io]\nprost = { git = \"g\" }\n")),
        },
    ];
    let m = merge_manifest_deps(&manifests).expect("merges");
    assert_eq!(m.deps.len(), 3);
    assert_eq!(m.deps.get("serde"), Some(&s("{version=\"1\"}")));
    assert_eq!(m.deps.get("log"), Some(&s("{version=\"0.4\"}")));
    assert!(m.patch.is_some());
    let a = m.label_to_crates.get("//a:Cargo.toml").expect("label a");
    assert_eq!(a, &vec![s("log"), s("serde")]);
    let b = m.label_to_crates.get("//b:Cargo.toml").expect("label b");
    assert_eq!(b, &vec![s("rand"), s("serde")]);
}

#[test]
fn conflicting_specifications_are_refused() {
    let manifests = vec![
        ManifestInput {
            label: s("//a:Cargo.toml"),
            deps: vec![dep("serde", "{version=\"1\"}")],
            patch: None,
        },
        ManifestInput {
            label: s("//b:Cargo.toml"),
            deps: vec![dep("serde", "{version=\"2\"}")],
            patch: None,
        },
    ];
    match merge_manifest_deps(&manifests) {
        Err(Error::ManifestConflict(n)) => assert_eq!(n, "serde"),
        _ => panic!("expected a manifest conflict"),
    }
}

#[test]
fn two_patch_sections_are_refused() {
    let manifests = vec![
        ManifestInput { label: s("//a:t"), deps: vec![], patch: Some(s("[patch]")) },
        ManifestInput { label: s("//b:t"), deps: vec![], patch: Some(s("[patch]")) },
    ];
    match merge_manifest_deps(&manifests) {
        Err(Error::PatchConflict) => {},
        _ => panic!("expected a patch conflict"),
    }
}

#[test]
fn graph_sorts_by_name_then_version_precedence() {
    let mut v = vec![
        registry_package("zlib", "1.0.0", &[]),
        registry_package("abc", "1.10.0", &[]),
        registry_package("abc", "1.9.0", &[]),
    ];
    sort_resolved(&mut v).expect("sorts");
    assert_eq!(v[0].name, "abc");
    assert_eq!(v[0].version, "1.9.0");
    assert_eq!(v[1].version, "1.10.0");
    assert_eq!(v[2].name, "zlib");
}

#[test]
fn basic_crate_consolidates_with_edition_and_label() {
    let triple = "x86_64-apple-darwin";
    let c = consolidator_for(
        &[triple],
        vec![registry_package("lazy_static", "1.4.0", &[triple])],
        vec![],
        vec![(s("lazy_static"), s("1.4.0"))],
    );
    let cfg_matches: Dict<Vec<String>> = Dict::from_pairs(&mut Vec::new()).unwrap();
    let m = c.consolidate(&cfg_matches).expect("consolidates");
    assert_eq!(m.digest, "d0");
    assert_eq!(m.crates.len(), 1);
    let cs = &m.crates[0];
    assert_eq!(cs.name, "lazy_static");
    assert_eq!(cs.version, "1.4.0");
    assert_eq!(cs.edition, "2015");
    assert_eq!(cs.kind, TargetKind::Library);
    assert!(!cs.has_build_script);
    assert!(cs.deps.is_empty());
    assert_eq!(m.target_names.len(), 1);
    assert_eq!(m.target_names[0].0, "lazy_static");
    assert_eq!(m.target_names[0].1, "@__lazy_static__1_4_0//:lazy_static");
}

#[test]
fn empty_model_consolidates_to_nothing() {
    let c = consolidator_for(&["x86_64-unknown-linux-gnu"], vec![], vec![], vec![]);
    let cfg_matches: Dict<Vec<String>> = Dict::from_pairs(&mut Vec::new()).unwrap();
    let m = c.consolidate(&cfg_matches).expect("consolidates");
    assert!(m.crates.is_empty());
    assert!(m.target_names.is_empty());
}

#[test]
fn override_environment_comes_out_in_key_order() {
    let triple = "x86_64-apple-darwin";
    let mut o = empty_override();
    o.extra_rust_env_vars = Dict::from_pairs(&mut vec![
        (s("ENV_VAR_2"), s("value2")),
        (s("ENV_VAR_1"), s("value1")),
    ])
    .unwrap();
    let c = consolidator_for(
        &[triple],
        vec![registry_package("tokio", "0.2.22", &[triple])],
        vec![(s("tokio"), o)],
        vec![],
    );
    let cfg_matches: Dict<Vec<String>> = Dict::from_pairs(&mut Vec::new()).unwrap();
    let m = c.consolidate(&cfg_matches).expect("consolidates");
    let cs = &m.crates[0];
    assert_eq!(
        cs.rustc_env.entries,
        vec![(s("ENV_VAR_1"), s("value1")), (s("ENV_VAR_2"), s("value2"))]
    );
}

#[test]
fn platform_conditional_override_expands_to_triple_subsets() {
    let darwin = "x86_64-apple-darwin";
    let linux = "x86_64-unknown-linux-gnu";
    let windows = "x86_64-pc-windows-gnu";
    let mut o = empty_override();
    o.extra_bazel_deps = Dict::from_pairs(&mut vec![
        (s("cfg(unix)"), vec![s("@y//:d")]),
        (s(darwin), vec![s("@s//:d"), s("@o//:d")]),
    ])
    .unwrap();
    let c = consolidator_for(
        &[darwin, linux, windows],
        vec![registry_package("tokio", "0.2.22", &[darwin, linux, windows])],
        vec![(s("tokio"), o)],
        vec![],
    );
    let cfg_matches: Dict<Vec<String>> =
        Dict::from_pairs(&mut vec![(s("cfg(unix)"), vec![s(darwin), s(linux)])]).unwrap();
    let m = c.consolidate(&cfg_matches).expect("consolidates");
    let cs = &m.crates[0];
    assert_eq!(cs.deps.len(), 2);
    // the override map is keyed in sorted order, so the predicate entry comes
    // first and the concrete-triple entry second
    match &cs.deps[0].selector {
        Selector::Subset(ts) => assert_eq!(ts, &vec![s(darwin), s(linux)]),
        _ => panic!("expected a subset selector"),
    }
    assert_eq!(cs.deps[0].labels, vec![s("@y//:d")]);
    match &cs.deps[1].selector {
        Selector::Subset(ts) => assert_eq!(ts, &vec![s(darwin)]),
        _ => panic!("expected a subset selector"),
    }
    assert_eq!(cs.deps[1].labels, vec![s("@s//:d"), s("@o//:d")]);
}

#[test]
fn unknown_predicate_is_refused() {
    let triple = "x86_64-apple-darwin";
    let mut o = empty_override();
    o.extra_bazel_deps =
        Dict::from_pairs(&mut vec![(s("cfg(windows)"), vec![s("@w//:d")])]).unwrap();
    let c = consolidator_for(
        &[triple],
        vec![registry_package("tokio", "0.2.22", &[triple])],
        vec![(s("tokio"), o)],
        vec![],
    );
    let cfg_matches: Dict<Vec<String>> = Dict::from_pairs(&mut Vec::new()).unwrap();
    match c.consolidate(&cfg_matches) {
        Err(Error::UnknownPredicate(p)) => assert_eq!(p, "cfg(windows)"),
        _ => panic!("expected an unknown predicate"),
    }
}

#[test]
fn always_true_predicate_selects_every_triple() {
    let darwin = "x86_64-apple-darwin";
    let linux = "x86_64-unknown-linux-gnu";
    let mut o = empty_override();
    o.extra_build_script_bazel_deps =
        Dict::from_pairs(&mut vec![(s("cfg(all())"), vec![s("@such//:dep")])]).unwrap();
    let c = consolidator_for(
        &[darwin, linux],
        vec![registry_package("libz-sys", "1.0.0", &[darwin, linux])],
        vec![(s("libz-sys"), o)],
        vec![],
    );
    let cfg_matches: Dict<Vec<String>> = Dict::from_pairs(&mut Vec::new()).unwrap();
    let m = c.consolidate(&cfg_matches).expect("consolidates");
    let cs = &m.crates[0];
    assert_eq!(cs.build_deps.len(), 1);
    match &cs.build_deps[0].selector {
        Selector::Default => {},
        _ => panic!("expected the unconditional selector"),
    }
    assert_eq!(cs.build_deps[0].labels, vec![s("@such//:dep")]);
}

#[test]
fn build_script_crate_splits_dependency_categories() {
    let triple = "x86_64-unknown-linux-gnu";
    let mut p = registry_package("libz-sys", "1.0.25", &[triple]);
    p.links = Some(s("z"));
    p.targets.push(BuildTarget {
        kind: TargetKind::BuildScript,
        name: s("build-script-build"),
        crate_root: s("build.rs"),
    });
    p.deps_by_triple = vec![(
        s(triple),
        vec![
            edge("libc", "0.2.71", EdgeKind::Normal),
            edge("cc", "1.0.50", EdgeKind::Build),
            edge("pkg-config", "0.3.17", EdgeKind::Build),
        ],
    )];
    let c = consolidator_for(&[triple], vec![p], vec![], vec![]);
    let cfg_matches: Dict<Vec<String>> = Dict::from_pairs(&mut Vec::new()).unwrap();
    let m = c.consolidate(&cfg_matches).expect("consolidates");
    let cs = &m.crates[0];
    assert!(cs.has_build_script);
    assert_eq!(cs.links, Some(s("z")));
    assert_eq!(cs.deps.len(), 1);
    assert_eq!(cs.deps[0].labels, vec![s("@__libc__0_2_71//:libc")]);
    assert_eq!(cs.build_deps.len(), 1);
    assert_eq!(
        cs.build_deps[0].labels,
        vec![s("@__cc__1_0_50//:cc"), s("@__pkg_config__0_3_17//:pkg_config")]
    );
}

#[test]
fn git_sources_pass_through_with_their_paths() {
    let triple = "x86_64-apple-darwin";
    let mut top = registry_package("prost", "0.6.1", &[triple]);
    top.source = PackageSource::Git {
        remote: s("https://example.test/prost.git"),
        commit: s("deadbeef"),
        path_in_repo: s(""),
    };
    let mut sib = registry_package("prost-derive", "0.6.1", &[triple]);
    sib.source = PackageSource::Git {
        remote: s("https://example.test/prost.git"),
        commit: s("deadbeef"),
        path_in_repo: s("prost-derive"),
    };
    let c = consolidator_for(&[triple], vec![top, sib], vec![], vec![]);
    let cfg_matches: Dict<Vec<String>> = Dict::from_pairs(&mut Vec::new()).unwrap();
    let m = c.consolidate(&cfg_matches).expect("consolidates");
    match &m.crates[0].source {
        PackageSource::Git { commit, path_in_repo, .. } => {
            assert_eq!(commit, "deadbeef");
            assert_eq!(path_in_repo, "");
        },
        _ => panic!("expected a git source"),
    }
    match &m.crates[1].source {
        PackageSource::Git { path_in_repo, .. } => assert_eq!(path_in_repo, "prost-derive"),
        _ => panic!("expected a git source"),
    }
}

#[test]
fn aliased_dependency_is_recorded() {
    let triple = "x86_64-apple-darwin";
    let mut p = registry_package("plist", "1.0.0", &[triple]);
    p.deps_by_triple = vec![(
        s(triple),
        vec![DepEdge {
            name: s("xml-rs"),
            version: s("0.8.3"),
            kind: EdgeKind::Normal,
            alias: Some(s("xml_rs")),
        }],
    )];
    let c = consolidator_for(&[triple], vec![p], vec![], vec![]);
    let cfg_matches: Dict<Vec<String>> = Dict::from_pairs(&mut Vec::new()).unwrap();
    let m = c.consolidate(&cfg_matches).expect("consolidates");
    let cs = &m.crates[0];
    assert_eq!(
        cs.aliases.entries,
        vec![(s("@__xml_rs__0_8_3//:xml_rs"), s("xml_rs"))]
    );
}

#[test]
fn features_unify_across_triples_and_respect_removal() {
    let darwin = "x86_64-apple-darwin";
    let linux = "x86_64-unknown-linux-gnu";
    let mut p = registry_package("tokio", "0.2.22", &[darwin, linux]);
    p.features_by_triple = vec![
        (s(darwin), vec![s("rt-core"), s("macros")]),
        (s(linux), vec![s("rt-core"), s("uds")]),
    ];
    let mut o = empty_override();
    o.features_to_remove = vec![s("macros")];
    let c = consolidator_for(
        &[darwin, linux],
        vec![p],
        vec![(s("tokio"), o)],
        vec![],
    );
    let cfg_matches: Dict<Vec<String>> = Dict::from_pairs(&mut Vec::new()).unwrap();
    let m = c.consolidate(&cfg_matches).expect("consolidates");
    assert_eq!(m.crates[0].features, vec![s("rt-core"), s("uds")]);
}

#[test]
fn dependency_edges_unify_per_platform() {
    let darwin = "x86_64-apple-darwin";
    let linux = "x86_64-unknown-linux-gnu";
    let mut p = registry_package("bitflags", "1.2.1", &[darwin, linux]);
    p.deps_by_triple = vec![
        (
            s(darwin),
            vec![edge("both", "1.0.0", EdgeKind::Normal), edge("mac", "1.0.0", EdgeKind::Normal)],
        ),
        (s(linux), vec![edge("both", "1.0.0", EdgeKind::Normal)]),
    ];
    let c = consolidator_for(&[darwin, linux], vec![p], vec![], vec![]);
    let cfg_matches: Dict<Vec<String>> = Dict::from_pairs(&mut Vec::new()).unwrap();
    let m = c.consolidate(&cfg_matches).expect("consolidates");
    let cs = &m.crates[0];
    assert_eq!(cs.deps.len(), 2);
    match &cs.deps[0].selector {
        Selector::Default => {},
        _ => panic!("the everywhere-active edge belongs to the default selector"),
    }
    assert_eq!(cs.deps[0].labels, vec![s("@__both__1_0_0//:both")]);
    match &cs.deps[1].selector {
        Selector::Subset(ts) => assert_eq!(ts, &vec![s(darwin)]),
        _ => panic!("the platform-bound edge belongs to a subset selector"),
    }
    assert_eq!(cs.deps[1].labels, vec![s("@__mac__1_0_0//:mac")]);
}
