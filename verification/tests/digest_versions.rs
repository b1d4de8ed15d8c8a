//! The lockfile hash against an independent computation, the environment
//! filter, and version requirement handling.
use rules_rust_external::dict::Dict;
use rules_rust_external::digest::{compute_digest, filter_env_vars, is_hashed_env_var};
use rules_rust_external::model::{
    ConsolidatorOverride, DepKind, Error, MemberDep, PackageSource, ResolvedPackage,
};
use rules_rust_external::resolver::sort_resolved;
use rules_rust_external::versions::chosen_versions;
use sha2::Digest;

fn s(x: &str) -> String {
    x.to_string()
}

fn empty_list_dict() -> Dict<Vec<String>> {
    Dict::from_pairs(&mut Vec::new()).unwrap()
}

fn plain_package(name: &str, version: &str) -> ResolvedPackage {
    ResolvedPackage {
        name: s(name),
        version: s(version),
        source: PackageSource::Registry,
        license: s(""),
        edition: s("2018"),
        targets: vec![],
        deps_by_triple: vec![],
        features_by_triple: vec![],
        links: None,
        unsupported_targets: vec![],
    }
}

#[test]
fn digest_matches_independent_hash() {
    let tool = b"tool-1.2.3".to_vec();
    let template = s("https://example.test/{name}/{version}");
    let cargo_ver = b"cargo 1.0.0".to_vec();
    let triples = vec![s("x86_64-apple-darwin")];
    let labels = Dict::from_pairs(&mut vec![(s("//some:Cargo.toml"), vec![s("alpha"), s("beta")])])
        .unwrap();
    let o = ConsolidatorOverride {
        extra_rust_env_vars: Dict::from_pairs(&mut vec![(s("K"), s("V"))]).unwrap(),
        extra_build_script_env_vars: Dict::from_pairs(&mut Vec::new()).unwrap(),
        extra_bazel_deps: Dict::from_pairs(&mut vec![(s("cfg(unix)"), vec![s("@d//:x")])])
            .unwrap(),
        extra_bazel_data_deps: Dict::from_pairs(&mut Vec::new()).unwrap(),
        extra_build_script_bazel_deps: Dict::from_pairs(&mut Vec::new()).unwrap(),
        extra_build_script_bazel_data_deps: Dict::from_pairs(&mut Vec::new()).unwrap(),
        features_to_remove: vec![s("default")],
    };
    let overrides: Dict<ConsolidatorOverride> =
        Dict::from_pairs(&mut vec![(s("tokio"), o)]).unwrap();
    let env = vec![
        (s("CARGO_EXTRA"), s("1")),
        (s("CARGO_HOME"), s("/home/u/.cargo")),
        (s("PATH"), s("/bin")),
        (s("CARGO_NET_GIT_FETCH_WITH_CLI"), s("true")),
    ];
    let manifest = s("[dependencies]\nalpha = \"1\"\n");

    let got = compute_digest(
        &tool, &template, &cargo_ver, &triples, &labels, &overrides, &env, &manifest,
    );

    let mut stream: Vec<u8> = Vec::new();
    stream.extend_from_slice(&tool);
    stream.push(0);
    stream.extend_from_slice(template.as_bytes());
    stream.push(0);
    stream.extend_from_slice(&cargo_ver);
    stream.push(0);
    stream.extend_from_slice(b"x86_64-apple-darwin");
    stream.push(0);
    stream.push(0);
    stream.extend_from_slice(b"//some:Cargo.toml");
    stream.push(0);
    stream.extend_from_slice(b"alpha");
    stream.push(0);
    stream.extend_from_slice(b"beta");
    stream.push(0);
    // the tokio override: name, env pairs, the one dependency map entry,
    // and the removed feature, every field separator a zero byte
    stream.extend_from_slice(b"tokio");
    stream.push(0);
    stream.extend_from_slice(b"K");
    stream.push(0);
    stream.extend_from_slice(b"V");
    stream.push(0);
    stream.extend_from_slice(b"cfg(unix)");
    stream.push(0);
    stream.extend_from_slice(b"@d//:x");
    stream.push(0);
    stream.extend_from_slice(b"default");
    stream.push(0);
    stream.extend_from_slice(b"CARGO_EXTRA");
    stream.push(0);
    stream.extend_from_slice(b"1");
    stream.push(0);
    stream.extend_from_slice(manifest.as_bytes());
    stream.push(0);
    let expected = hex::encode(sha2::Sha256::digest(&stream));
    assert_eq!(got, expected);
}

#[test]
fn digest_is_deterministic_and_sensitive() {
    let tool = b"t".to_vec();
    let cargo_ver = b"c".to_vec();
    let triples = vec![s("a-b-c")];
    let labels = empty_list_dict();
    let overrides: Dict<ConsolidatorOverride> = Dict::from_pairs(&mut Vec::new()).unwrap();
    let env: Vec<(String, String)> = vec![];
    let manifest = s("m");
    let one = compute_digest(
        &tool, &s("u1"), &cargo_ver, &triples, &labels, &overrides, &env, &manifest,
    );
    let again = compute_digest(
        &tool, &s("u1"), &cargo_ver, &triples, &labels, &overrides, &env, &manifest,
    );
    let other = compute_digest(
        &tool, &s("u2"), &cargo_ver, &triples, &labels, &overrides, &env, &manifest,
    );
    assert_eq!(one, again);
    assert_ne!(one, other);
}

#[test]
fn cache_location_does_not_affect_digest() {
    let tool = b"t".to_vec();
    let cargo_ver = b"c".to_vec();
    let triples: Vec<String> = vec![];
    let labels = empty_list_dict();
    let overrides: Dict<ConsolidatorOverride> = Dict::from_pairs(&mut Vec::new()).unwrap();
    let manifest = s("m");
    let env1 = vec![(s("CARGO_HOME"), s("/a"))];
    let env2 = vec![(s("CARGO_HOME"), s("/b")), (s("TERM"), s("dumb"))];
    let d1 = compute_digest(
        &tool, &s("u"), &cargo_ver, &triples, &labels, &overrides, &env1, &manifest,
    );
    let d2 = compute_digest(
        &tool, &s("u"), &cargo_ver, &triples, &labels, &overrides, &env2, &manifest,
    );
    assert_eq!(d1, d2);
}

#[test]
fn env_filter_keeps_only_hashed_variables() {
    assert!(is_hashed_env_var("CARGO_BUILD_JOBS"));
    assert!(is_hashed_env_var("CARGO"));
    assert!(!is_hashed_env_var("CARGO_HOME"));
    assert!(!is_hashed_env_var("CARGO_NET_GIT_FETCH_WITH_CLI"));
    assert!(!is_hashed_env_var("PATH"));
    assert!(!is_hashed_env_var("CARG"));
    let kept = filter_env_vars(&vec![
        (s("CARGO_A"), s("1")),
        (s("HOME"), s("/h")),
        (s("CARGO_HOME"), s("/c")),
    ]);
    assert_eq!(kept, vec![(s("CARGO_A"), s("1"))]);
}

#[test]
fn requirement_matching_follows_the_version_library() {
    // an exact pin accepts only its own version
    let deps = vec![MemberDep { name: s("a"), req: s("=1.4.0"), kind: DepKind::Normal }];
    let resolved = vec![plain_package("a", "1.4.1"), plain_package("a", "1.4.0")];
    let chosen = chosen_versions(&deps, &resolved).expect("resolves");
    assert_eq!(chosen.get("a"), Some(&s("1.4.0")));
    // a caret requirement accepts the whole compatible range
    let deps = vec![MemberDep { name: s("b"), req: s("^1.2"), kind: DepKind::Normal }];
    let resolved = vec![plain_package("b", "2.0.0"), plain_package("b", "1.9.7")];
    let chosen = chosen_versions(&deps, &resolved).expect("resolves");
    assert_eq!(chosen.get("b"), Some(&s("1.9.7")));
    // a requirement the version library cannot read is a resolution failure
    let deps = vec![MemberDep { name: s("c"), req: s("not a req"), kind: DepKind::Normal }];
    let resolved = vec![plain_package("c", "1.0.0")];
    match chosen_versions(&deps, &resolved) {
        Err(Error::ResolveFailed(_)) => {},
        _ => panic!("expected a resolution failure"),
    }
}

#[test]
fn version_order_is_numeric_not_textual() {
    // "1.10.0" outranks "1.9.0" though it sorts lower as text
    let deps = vec![MemberDep { name: s("a"), req: s("^1"), kind: DepKind::Normal }];
    let resolved = vec![plain_package("a", "1.10.0"), plain_package("a", "1.9.0")];
    let chosen = chosen_versions(&deps, &resolved).expect("resolves");
    assert_eq!(chosen.get("a"), Some(&s("1.10.0")));
    // a prerelease ranks below its release
    let deps = vec![MemberDep { name: s("b"), req: s(">=1.0.0-alpha"), kind: DepKind::Normal }];
    let resolved = vec![plain_package("b", "1.0.0-alpha"), plain_package("b", "1.0.0")];
    let chosen = chosen_versions(&deps, &resolved).expect("resolves");
    assert_eq!(chosen.get("b"), Some(&s("1.0.0")));
    // a version string the version library cannot read fails the sort
    let mut v = vec![plain_package("c", "junk")];
    match sort_resolved(&mut v) {
        Err(Error::ResolveFailed(_)) => {},
        _ => panic!("expected a resolution failure"),
    }
}

#[test]
fn chosen_version_is_highest_matching() {
    let deps = vec![
        MemberDep { name: s("lazy_static"), req: s(">=1.0, <2"), kind: DepKind::Normal },
        MemberDep { name: s("lazy_static"), req: s(">=1.2"), kind: DepKind::Normal },
        MemberDep { name: s("ignored"), req: s("*"), kind: DepKind::Development },
    ];
    let resolved = vec![
        plain_package("lazy_static", "1.1.0"),
        plain_package("lazy_static", "1.4.0"),
        plain_package("other", "0.1.0"),
    ];
    let chosen = chosen_versions(&deps, &resolved).expect("resolves");
    assert_eq!(chosen.get("lazy_static"), Some(&s("1.4.0")));
    // a crate nobody directly requires gets no canonical entry
    assert_eq!(chosen.get("other"), None);
    // the development-kind requirement does not create an entry
    assert_eq!(chosen.get("ignored"), None);
}

#[test]
fn no_common_version_is_reported() {
    let deps = vec![
        MemberDep { name: s("dep"), req: s("=1.0.0"), kind: DepKind::Normal },
        MemberDep { name: s("dep"), req: s("=2.0.0"), kind: DepKind::Normal },
    ];
    let resolved = vec![plain_package("dep", "1.0.0"), plain_package("dep", "2.0.0")];
    let r = chosen_versions(&deps, &resolved);
    match r {
        Err(rules_rust_external::model::Error::NoCommonVersion(n)) => assert_eq!(n, "dep"),
        _ => panic!("expected a no-common-version failure"),
    }
}
