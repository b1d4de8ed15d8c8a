//! The preprocessing stage and the cached lockfile hash.
use rules_rust_external::config::{Config, Override, Package};
use rules_rust_external::consolidator::ConsolidatorConfig;
use rules_rust_external::dict::Dict;
use rules_rust_external::merger::{ManifestDep, ManifestInput};
use rules_rust_external::model::{DepKind, MemberDep, PackageSource, ResolvedPackage};
use rules_rust_external::renderer::RenderConfig;
use rules_rust_external::resolver::{DigestInputs, Resolver, ResolverConfig};

fn s(x: &str) -> String {
    x.to_string()
}

fn empty_override_table() -> Dict<Override> {
    Dict::from_pairs(&mut Vec::new()).unwrap()
}

fn sample_config() -> Config {
    Config {
        packages: vec![
            Package { name: s("serde"), semver: s("1.0"), features: vec![s("derive")] },
            Package { name: s("anyhow"), semver: s("1"), features: vec![] },
        ],
        cargo_toml_files: Dict::from_pairs(&mut vec![(s("//some:Cargo.toml"), s("/tmp/x"))])
            .unwrap(),
        overrides: empty_override_table(),
        repository_template: s("https://ex/{name}/{version}"),
        target_triples: vec![s("x86_64-apple-darwin")],
        cargo: s("/usr/bin/cargo"),
    }
}

#[test]
fn preprocessing_sorts_pins_and_merges_manifests() {
    let manifests = vec![ManifestInput {
        label: s("//some:Cargo.toml"),
        deps: vec![ManifestDep { name: s("log"), spec: s("\"0.4\"") }],
        patch: None,
    }];
    let r = sample_config().preprocess(&manifests).expect("preprocesses");
    assert_eq!(r.packages[0].name, "anyhow");
    assert_eq!(r.packages[1].name, "serde");
    assert_eq!(r.deps.get("log"), Some(&s("\"0.4\"")));
    assert!(r.patch.is_none());
    assert_eq!(r.render_config.repository_template, "https://ex/{name}/{version}");
    assert_eq!(r.resolver_config.cargo, "/usr/bin/cargo");
    assert!(r.digest.is_none());
    let crates = r.label_to_crates.get("//some:Cargo.toml").expect("label present");
    assert_eq!(crates, &vec![s("log")]);
}

fn bare_resolver() -> Resolver {
    Resolver::new(
        Dict::from_pairs(&mut Vec::new()).unwrap(),
        vec![],
        None,
        ResolverConfig { cargo: s("/usr/bin/cargo") },
        ConsolidatorConfig { overrides: Dict::from_pairs(&mut Vec::new()).unwrap() },
        RenderConfig { repository_template: s("https://ex/{name}/{version}") },
        vec![s("x86_64-apple-darwin")],
        Dict::from_pairs(&mut Vec::new()).unwrap(),
    )
}

fn inputs() -> DigestInputs {
    DigestInputs {
        tool_version: b"tool".to_vec(),
        cargo_version: b"cargo 1.0".to_vec(),
        env_vars: vec![],
    }
}

#[test]
fn lockfile_hash_is_cached_after_first_computation() {
    let mut r = bare_resolver();
    let first = r.digest(&inputs(), &s("manifest-a"));
    // once cached, even a different manifest hands back the same value
    let second = r.digest(&inputs(), &s("manifest-b"));
    assert_eq!(first, second);

    let mut fresh = bare_resolver();
    let different = fresh.digest(&inputs(), &s("manifest-b"));
    assert_ne!(first, different);
}

#[test]
fn hash_reacts_to_each_hashed_field() {
    let base = {
        let mut r = bare_resolver();
        r.digest(&inputs(), &s("m"))
    };
    // another tool version
    let mut r = bare_resolver();
    let with_tool = r.digest(
        &DigestInputs {
            tool_version: b"tool2".to_vec(),
            cargo_version: b"cargo 1.0".to_vec(),
            env_vars: vec![],
        },
        &s("m"),
    );
    assert_ne!(base, with_tool);
    // another resolver version
    let mut r = bare_resolver();
    let with_cargo = r.digest(
        &DigestInputs {
            tool_version: b"tool".to_vec(),
            cargo_version: b"cargo 2.0".to_vec(),
            env_vars: vec![],
        },
        &s("m"),
    );
    assert_ne!(base, with_cargo);
    // a hashed environment variable
    let mut r = bare_resolver();
    let with_env = r.digest(
        &DigestInputs {
            tool_version: b"tool".to_vec(),
            cargo_version: b"cargo 1.0".to_vec(),
            env_vars: vec![(s("CARGO_FEATURE_X"), s("1"))],
        },
        &s("m"),
    );
    assert_ne!(base, with_env);
    // another merged manifest
    let mut r = bare_resolver();
    let with_manifest = r.digest(&inputs(), &s("m2"));
    assert_ne!(base, with_manifest);
}

#[test]
fn resolve_sorts_the_graph_and_fixes_the_hash() {
    let triple = "x86_64-apple-darwin";
    let pkg = |name: &str, version: &str| ResolvedPackage {
        name: s(name),
        version: s(version),
        source: PackageSource::Registry,
        license: s(""),
        edition: s("2018"),
        targets: vec![],
        deps_by_triple: vec![(s(triple), vec![])],
        features_by_triple: vec![(s(triple), vec![])],
        links: None,
        unsupported_targets: vec![],
    };
    let r = bare_resolver();
    let member_deps = vec![MemberDep {
        name: s("bitflags"),
        req: s("^1"),
        kind: DepKind::Normal,
    }];
    let c = r
        .resolve(
            vec![pkg("lazy_static", "1.4.0"), pkg("bitflags", "1.2.1")],
            &member_deps,
            &inputs(),
            &s("m"),
        )
        .expect("resolves");
    assert_eq!(c.resolved_packages[0].name, "bitflags");
    assert_eq!(c.resolved_packages[1].name, "lazy_static");
    assert!(!c.digest.is_empty());
    assert_eq!(
        c.member_packages_version_mapping.get("bitflags"),
        Some(&s("1.2.1"))
    );
    assert_eq!(c.member_packages_version_mapping.get("lazy_static"), None);
}
