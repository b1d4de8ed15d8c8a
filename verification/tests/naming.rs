//! Naming, string ordering, and the ordered containers.
use rules_rust_external::config::{crate_to_label, crate_to_repo_rule_name, sort_packages, Package};
use rules_rust_external::dict::{insert_string_set, string_set_contains, Dict};
use rules_rust_external::strutil::{sort_strings, str_eq, str_le, str_lt};

#[test]
fn hyphenated_name_sanitizes() {
    let repo = crate_to_repo_rule_name("pin-project-lite", "0.2.9");
    assert_eq!(repo, "__pin_project_lite__0_2_9");
    let label = crate_to_label("pin-project-lite", "0.2.9");
    assert_eq!(label, "@__pin_project_lite__0_2_9//:pin_project_lite");
}

#[test]
fn version_with_prerelease_and_build_sanitizes() {
    let repo = crate_to_repo_rule_name("x", "1.0.0-alpha.2+build");
    assert_eq!(repo, "__x__1_0_0_alpha_2_build");
}

#[test]
fn plain_name_and_version() {
    assert_eq!(crate_to_repo_rule_name("lazy_static", "1.4.0"), "__lazy_static__1_4_0");
    assert_eq!(crate_to_label("lazy_static", "1.4.0"), "@__lazy_static__1_4_0//:lazy_static");
}

#[test]
fn string_order_is_lexicographic() {
    assert!(str_lt("abc", "abd"));
    assert!(str_lt("ab", "abc"));
    assert!(!str_lt("abc", "abc"));
    assert!(str_le("abc", "abc"));
    assert!(!str_lt("b", "a"));
    assert!(str_eq("same", "same"));
    assert!(!str_eq("same", "Same"));
}

#[test]
fn sorting_strings_is_stable_and_ordered() {
    let mut v = vec![
        "zlib".to_string(),
        "abc".to_string(),
        "zlib".to_string(),
        "m".to_string(),
    ];
    sort_strings(&mut v);
    assert_eq!(v, vec!["abc", "m", "zlib", "zlib"]);
}

#[test]
fn string_sets_deduplicate_and_sort() {
    let mut v: Vec<String> = Vec::new();
    insert_string_set(&mut v, "b".to_string());
    insert_string_set(&mut v, "a".to_string());
    insert_string_set(&mut v, "b".to_string());
    assert_eq!(v, vec!["a", "b"]);
    assert!(string_set_contains(&v, "a"));
    assert!(!string_set_contains(&v, "c"));
}

#[test]
fn dict_orders_keys_and_rejects_duplicates() {
    let mut pairs = vec![
        ("beta".to_string(), 2u32),
        ("alpha".to_string(), 1u32),
    ];
    let d = Dict::from_pairs(&mut pairs).expect("no duplicates");
    assert_eq!(d.entries.len(), 2);
    assert_eq!(d.entries[0].0, "alpha");
    assert_eq!(d.entries[1].0, "beta");
    assert_eq!(d.get("alpha"), Some(&1u32));
    assert_eq!(d.get("gamma"), None);

    let mut dup = vec![
        ("k".to_string(), 1u32),
        ("k".to_string(), 2u32),
    ];
    let e = Dict::from_pairs(&mut dup);
    assert!(e.is_err());
    assert_eq!(e.err().unwrap(), "k");
}

#[test]
fn package_pins_sort_by_name_then_requirement() {
    let mut v = vec![
        Package { name: "serde".to_string(), semver: "1.0".to_string(), features: vec![] },
        Package { name: "anyhow".to_string(), semver: "1".to_string(), features: vec![] },
        Package { name: "serde".to_string(), semver: "0.9".to_string(), features: vec![] },
    ];
    sort_packages(&mut v);
    assert_eq!(v[0].name, "anyhow");
    assert_eq!(v[1].name, "serde");
    assert_eq!(v[1].semver, "0.9");
    assert_eq!(v[2].semver, "1.0");
}
