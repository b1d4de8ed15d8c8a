//! The rendered document and the synthetic workspace manifest.
use rules_rust_external::config::Package;
use rules_rust_external::consolidator::{Consolidator, ConsolidatorConfig};
use rules_rust_external::dict::Dict;
use rules_rust_external::document::{render, replace_all_str};
use rules_rust_external::merger::synthetic_manifest;
use rules_rust_external::model::{
    BuildTarget, ConsolidatorOverride, DepEdge, EdgeKind, PackageSource, ResolvedPackage,
    TargetKind,
};
use rules_rust_external::renderer::{alias_applies, RenderConfig};

fn s(x: &str) -> String {
    x.to_string()
}

fn empty_override() -> ConsolidatorOverride {
    ConsolidatorOverride {
        extra_rust_env_vars: Dict::from_pairs(&mut Vec::new()).unwrap(),
        extra_build_script_env_vars: Dict::from_pairs(&mut Vec::new()).unwrap(),
        extra_bazel_deps: Dict::from_pairs(&mut Vec::new()).unwrap(),
        extra_bazel_data_deps: Dict::from_pairs(&mut Vec::new()).unwrap(),
        extra_build_script_bazel_deps: Dict::from_pairs(&mut Vec::new()).unwrap(),
        extra_build_script_bazel_data_deps: Dict::from_pairs(&mut Vec::new()).unwrap(),
        features_to_remove: Vec::new(),
    }
}

fn registry_package(name: &str, version: &str, triples: &[&str]) -> ResolvedPackage {
    ResolvedPackage {
        name: s(name),
        version: s(version),
        source: PackageSource::Registry,
        license: s("MIT"),
        edition: s("2015"),
        targets: vec![BuildTarget {
            kind: TargetKind::Library,
            name: s(name),
            crate_root: s("src/lib.rs"),
        }],
        deps_by_triple: triples.iter().map(|t| (s(t), Vec::new())).collect(),
        features_by_triple: triples.iter().map(|t| (s(t), Vec::new())).collect(),
        links: None,
        unsupported_targets: Vec::new(),
    }
}

fn consolidator_for(
    triples: &[&str],
    packages: Vec<ResolvedPackage>,
    overrides: Vec<(String, ConsolidatorOverride)>,
    chosen: Vec<(String, String)>,
) -> Consolidator {
    let mut ovr = overrides;
    let mut ch = chosen;
    Consolidator {
        consolidator_config: ConsolidatorConfig {
            overrides: Dict::from_pairs(&mut ovr).unwrap(),
        },
        render_config: RenderConfig { repository_template: s("https://ex/{name}/{version}") },
        digest: s("d0"),
        target_triples: triples.iter().map(|t| s(t)).collect(),
        resolved_packages: packages,
        member_packages_version_mapping: Dict::from_pairs(&mut ch).unwrap(),
        label_to_crates: Dict::from_pairs(&mut Vec::new()).unwrap(),
    }
}

#[test]
fn template_substitution_replaces_both_tokens() {
    let url = replace_all_str("https://ex/{name}/{name}-{version}.crate", "{name}", "serde");
    let url = replace_all_str(url.as_str(), "{version}", "1.0.0");
    assert_eq!(url, "https://ex/serde/serde-1.0.0.crate");
}

#[test]
fn empty_model_renders_a_pass_body() {
    let c = consolidator_for(&["x86_64-unknown-linux-gnu"], vec![], vec![], vec![]);
    let cfg: Dict<Vec<String>> = Dict::from_pairs(&mut Vec::new()).unwrap();
    let m = c.consolidate(&cfg).expect("consolidates");
    let doc = render(&m);
    assert!(doc.starts_with("# digest: d0\n\n"));
    assert!(doc.contains("def pinned_rust_install():\n    pass\n"));
    assert!(doc.contains("CRATE_TARGET_NAMES = {\n}\n"));
    assert!(doc.contains("PROC_MACRO_CRATE_NAMES = []\n"));
    assert!(doc.contains("def all_deps():"));
    assert!(doc.contains("def all_proc_macro_deps():"));
    assert!(doc.contains("def proc_macro_crates_from(label):"));
}

#[test]
fn basic_crate_renders_an_archive_block() {
    let triple = "x86_64-apple-darwin";
    let c = consolidator_for(
        &[triple],
        vec![registry_package("lazy_static", "1.4.0", &[triple])],
        vec![],
        vec![(s("lazy_static"), s("1.4.0"))],
    );
    let cfg: Dict<Vec<String>> = Dict::from_pairs(&mut Vec::new()).unwrap();
    let m = c.consolidate(&cfg).expect("consolidates");
    let doc = render(&m);
    assert!(doc.contains("    http_archive(\n        name = \"__lazy_static__1_4_0\","));
    assert!(doc.contains("url = \"https://ex/lazy_static/1.4.0\""));
    assert!(doc.contains("type = \"tar.gz\""));
    assert!(doc.contains("strip_prefix = \"lazy_static-1.4.0\""));
    assert!(doc.contains("load(\"@bazel_skylib//lib:selects.bzl\", \"selects\")"));
    assert!(doc.contains("rust_library(\n    name = \"lazy_static\",\n"));
    assert!(doc.contains("srcs = glob([\"**/*.rs\"])"));
    assert!(doc.contains("crate_root = \"src/lib.rs\""));
    assert!(doc.contains("edition = \"2015\""));
    assert!(doc.contains("    \"lazy_static\": \"@__lazy_static__1_4_0//:lazy_static\",\n"));
}

#[test]
fn git_crate_renders_a_git_repository_block() {
    let triple = "x86_64-apple-darwin";
    let mut p = registry_package("prost-derive", "0.6.1", &[triple]);
    p.source = PackageSource::Git {
        remote: s("https://example.test/prost.git"),
        commit: s("deadbeef"),
        path_in_repo: s("prost-derive"),
    };
    let c = consolidator_for(&[triple], vec![p], vec![], vec![]);
    let cfg: Dict<Vec<String>> = Dict::from_pairs(&mut Vec::new()).unwrap();
    let m = c.consolidate(&cfg).expect("consolidates");
    let doc = render(&m);
    assert!(doc.contains("    new_git_repository(\n        name = \"__prost_derive__0_6_1\","));
    assert!(doc.contains("commit = \"deadbeef\""));
    assert!(doc.contains("strip_prefix = \"prost-derive\""));
}

#[test]
fn synthetic_manifest_lists_table_pins_and_patch() {
    let deps = Dict::from_pairs(&mut vec![(s("log"), s("\"0.4\""))]).unwrap();
    let packages = vec![
        Package { name: s("anyhow"), semver: s("1"), features: vec![] },
        Package { name: s("serde"), semver: s("1.0"), features: vec![s("derive")] },
    ];
    let patch = Some(s("[patch.crates-io]\nprost = { git = \"g\" }\n"));
    let text = synthetic_manifest(&deps, &packages, &patch);
    assert!(text.starts_with("[package]\nname = \"rules-rust-external-synthetic\"\n"));
    assert!(text.contains("version = \"0.0.0\""));
    assert!(text.contains("[dependencies]\nlog = \"0.4\"\n"));
    assert!(text.contains("anyhow = \"1\"\n"));
    assert!(text.contains("serde = { version = \"1.0\", features = [\"derive\"] }\n"));
    assert!(text.ends_with("\n[patch.crates-io]\nprost = { git = \"g\" }\n"));
}

#[test]
fn alias_rows_match_their_dependency() {
    assert!(alias_applies("@__xml_rs__0_8_3//:xml_rs", "xml-rs"));
    assert!(alias_applies("//cargo:xml_rs", "xml-rs"));
    assert!(!alias_applies("@__serde__1_0_0//:serde", "xml-rs"));
    assert!(!alias_applies("xml", "xml-rs"));
}

#[test]
fn build_script_crate_renders_one_merged_deps_attribute() {
    let triple = "x86_64-unknown-linux-gnu";
    let mut p = registry_package("libz-sys", "1.0.25", &[triple]);
    p.links = Some(s("z"));
    p.targets.push(BuildTarget {
        kind: TargetKind::BuildScript,
        name: s("build-script-build"),
        crate_root: s("build.rs"),
    });
    p.deps_by_triple = vec![(
        s(triple),
        vec![
            DepEdge {
                name: s("libc"),
                version: s("0.2.71"),
                kind: EdgeKind::Normal,
                alias: None,
            },
            DepEdge {
                name: s("cc"),
                version: s("1.0.50"),
                kind: EdgeKind::Build,
                alias: None,
            },
        ],
    )];
    let mut o = empty_override();
    o.extra_build_script_env_vars =
        Dict::from_pairs(&mut vec![(s("K"), s("V"))]).unwrap();
    let c = consolidator_for(&[triple], vec![p], vec![(s("libz-sys"), o)], vec![]);
    let cfg: Dict<Vec<String>> = Dict::from_pairs(&mut Vec::new()).unwrap();
    let m = c.consolidate(&cfg).expect("consolidates");
    let doc = render(&m);
    // one deps attribute: the build-script target first, then the select
    assert!(doc.contains("        deps = [\":libz_sys_build_script\"] + selects.with_or({\n"));
    assert!(!doc.contains("deps = [\":libz_sys_build_script\"],"));
    assert!(doc.contains("\"//conditions:default\": [\"@__libc__0_2_71//:libc\"],"));
    // the build script rule carries its root and its environment
    assert!(doc.contains("cargo_build_script(\n    name = \"libz_sys_build_script\",\n"));
    assert!(doc.contains("crate_root = \"build.rs\""));
    assert!(doc.contains("links = \"z\""));
    assert!(doc.contains("build_script_env = {\"K\": \"V\"},"));
}

#[test]
fn conditional_groups_close_with_an_empty_default_arm() {
    let darwin = "x86_64-apple-darwin";
    let linux = "x86_64-unknown-linux-gnu";
    let mut p = registry_package("bitflags", "1.2.1", &[darwin, linux]);
    p.deps_by_triple = vec![
        (
            s(darwin),
            vec![DepEdge {
                name: s("mac"),
                version: s("1.0.0"),
                kind: EdgeKind::Normal,
                alias: None,
            }],
        ),
        (s(linux), vec![]),
    ];
    let c = consolidator_for(&[darwin, linux], vec![p], vec![], vec![]);
    let cfg: Dict<Vec<String>> = Dict::from_pairs(&mut Vec::new()).unwrap();
    let m = c.consolidate(&cfg).expect("consolidates");
    let doc = render(&m);
    assert!(doc.contains("(\"x86_64-apple-darwin\"): [\"@__mac__1_0_0//:mac\"],\n"));
    assert!(doc.contains("            \"//conditions:default\": [],\n"));
}

#[test]
fn aliases_render_inside_a_default_select() {
    let triple = "x86_64-apple-darwin";
    let mut p = registry_package("plist", "1.0.0", &[triple]);
    p.deps_by_triple = vec![(
        s(triple),
        vec![DepEdge {
            name: s("xml-rs"),
            version: s("0.8.3"),
            kind: EdgeKind::Normal,
            alias: Some(s("xml_rs")),
        }],
    )];
    let c = consolidator_for(&[triple], vec![p], vec![], vec![]);
    let cfg: Dict<Vec<String>> = Dict::from_pairs(&mut Vec::new()).unwrap();
    let m = c.consolidate(&cfg).expect("consolidates");
    let doc = render(&m);
    assert!(doc.contains(
        "    aliases = select({\n        \"//conditions:default\": {\"@__xml_rs__0_8_3//:xml_rs\": \"xml_rs\"},\n    }),\n"
    ));
}

#[test]
fn proc_macro_crates_are_listed_by_name() {
    let triple = "x86_64-apple-darwin";
    let mut p = registry_package("serde_derive", "1.0.100", &[triple]);
    p.targets = vec![BuildTarget {
        kind: TargetKind::ProcMacro,
        name: s("serde_derive"),
        crate_root: s("src/lib.rs"),
    }];
    let c = consolidator_for(
        &[triple],
        vec![p],
        vec![],
        vec![(s("serde_derive"), s("1.0.100"))],
    );
    let cfg: Dict<Vec<String>> = Dict::from_pairs(&mut Vec::new()).unwrap();
    let m = c.consolidate(&cfg).expect("consolidates");
    assert_eq!(m.proc_macro_names, vec![s("serde_derive")]);
    let doc = render(&m);
    assert!(doc.contains("PROC_MACRO_CRATE_NAMES = [\"serde_derive\"]\n"));
    assert!(doc.contains("rust_proc_macro(\n    name = \"serde_derive\",\n"));
}
