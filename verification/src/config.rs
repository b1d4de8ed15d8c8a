//! The configuration surface: extra package pins, per-crate overrides, the
//! inputs that drive the pipeline, and the naming of fetch rules and target
//! labels for resolved crates.
use crate::consolidator::ConsolidatorConfig;
use crate::dict::{strings_sorted_unique, Dict};
use crate::merger::{
    conflicted, declares, dep_names, first_patch, merge_manifest_deps, patch_count, ManifestInput,
};
use crate::model::{ConsolidatorOverride, Error};
use crate::renderer::RenderConfig;
use crate::resolver::{Resolver, ResolverConfig};
use crate::strutil::{lemma_lex_lt_total, lemma_lex_lt_trans, lex_le, lex_lt, str_eq, str_lt};
use vstd::multiset::Multiset;
use vstd::prelude::*;
use vstd::string::*;

verus! {

/// An extra package pin: crate name, version requirement, and the features
/// to enable.
pub struct Package {
    pub name: String,
    pub semver: String,
    pub features: Vec<String>,
}

/// Per-crate side data from the configuration; same shape as the
/// consolidator's override, before preprocessing.
pub struct Override {
    pub extra_rust_env_vars: Dict<String>,
    pub extra_build_script_env_vars: Dict<String>,
    pub extra_bazel_deps: Dict<Vec<String>>,
    pub extra_bazel_data_deps: Dict<Vec<String>>,
    pub extra_build_script_bazel_deps: Dict<Vec<String>>,
    pub extra_build_script_bazel_data_deps: Dict<Vec<String>>,
    pub features_to_remove: Vec<String>,
}

impl Override {
    /// Every container ordered.
    pub open spec fn wf(self) -> bool {
        &&& self.extra_rust_env_vars.wf()
        &&& self.extra_build_script_env_vars.wf()
        &&& self.extra_bazel_deps.wf()
        &&& self.extra_bazel_data_deps.wf()
        &&& self.extra_build_script_bazel_deps.wf()
        &&& self.extra_build_script_bazel_data_deps.wf()
        &&& strings_sorted_unique(self.features_to_remove@)
    }
}

/// Everything that affects the rendered output: package pins, the labelled
/// manifests, the overrides, the URL template, the target triples, and the
/// path of the upstream resolver binary.
pub struct Config {
    pub packages: Vec<Package>,
    pub cargo_toml_files: Dict<String>,
    pub overrides: Dict<Override>,
    pub repository_template: String,
    pub target_triples: Vec<String>,
    pub cargo: String,
}

/// Lexicographic order on lists of strings, element order by `lex_lt`.
pub open spec fn list_lt(a: Seq<String>, b: Seq<String>) -> bool
    decreases a.len(),
{
    if b.len() == 0 {
        false
    } else if a.len() == 0 {
        true
    } else if a[0]@ == b[0]@ {
        list_lt(a.drop_first(), b.drop_first())
    } else {
        lex_lt(a[0]@, b[0]@)
    }
}

/// The views of two string lists, elementwise.
pub open spec fn list_views_eq(a: Seq<String>, b: Seq<String>) -> bool {
    a.len() == b.len() && (forall|i: int| 0 <= i < a.len() ==> (#[trigger] a[i])@ == b[i]@)
}

/// The sort order of package pins: by name, ties broken by requirement, then
/// by the feature list.
pub open spec fn package_le(a: Package, b: Package) -> bool {
    ||| lex_lt(a.name@, b.name@)
    ||| (a.name@ == b.name@ && lex_lt(a.semver@, b.semver@))
    ||| (a.name@ == b.name@ && a.semver@ == b.semver@ && (list_lt(a.features@, b.features@)
        || list_views_eq(a.features@, b.features@)))
}

proof fn lemma_list_lt_total(a: Seq<String>, b: Seq<String>)
    ensures
        list_lt(a, b) || list_lt(b, a) || list_views_eq(a, b),
    decreases a.len(),
{
    if a.len() == 0 && b.len() == 0 {
    } else if a.len() > 0 && b.len() > 0 && a[0]@ == b[0]@ {
        lemma_list_lt_total(a.drop_first(), b.drop_first());
        if list_views_eq(a.drop_first(), b.drop_first()) {
            assert forall|i: int| 0 <= i < a.len() implies (#[trigger] a[i])@ == b[i]@ by {
                if i > 0 {
                    assert(a.drop_first()[i - 1] == a[i]);
                    assert(b.drop_first()[i - 1] == b[i]);
                    assert(a.drop_first()[i - 1]@ == b.drop_first()[i - 1]@);
                }
            }
        }
    } else if a.len() > 0 && b.len() > 0 {
        lemma_lex_lt_total(a[0]@, b[0]@);
    }
}

proof fn lemma_list_lt_trans(a: Seq<String>, b: Seq<String>, c: Seq<String>)
    requires
        list_lt(a, b),
        list_lt(b, c),
    ensures
        list_lt(a, c),
    decreases a.len(), b.len(), c.len(),
{
    if a.len() > 0 && b.len() > 0 && c.len() > 0 {
        if a[0]@ == b[0]@ && b[0]@ == c[0]@ {
            lemma_list_lt_trans(a.drop_first(), b.drop_first(), c.drop_first());
        } else if a[0]@ == b[0]@ {
            assert(lex_lt(b[0]@, c[0]@));
            if a[0]@ == c[0]@ {
                crate::strutil::lemma_lex_lt_irrefl(a[0]@);
            }
        } else if b[0]@ == c[0]@ {
            assert(lex_lt(a[0]@, b[0]@));
            if a[0]@ == c[0]@ {
                crate::strutil::lemma_lex_lt_irrefl(a[0]@);
            }
        } else {
            lemma_lex_lt_trans(a[0]@, b[0]@, c[0]@);
            if a[0]@ == c[0]@ {
                crate::strutil::lemma_lex_lt_irrefl(a[0]@);
            }
        }
    }
}

proof fn lemma_list_lt_views(a: Seq<String>, b: Seq<String>, c: Seq<String>)
    ensures
        list_views_eq(a, b) && list_lt(b, c) ==> list_lt(a, c),
        list_lt(a, b) && list_views_eq(b, c) ==> list_lt(a, c),
    decreases a.len(), b.len(), c.len(),
{
    if a.len() > 0 && b.len() > 0 {
        if list_views_eq(a, b) && list_lt(b, c) {
            assert(a[0]@ == b[0]@);
            assert(list_views_eq(a.drop_first(), b.drop_first())) by {
                assert forall|i: int|
                    0 <= i < a.drop_first().len() implies (#[trigger] a.drop_first()[i])@
                    == b.drop_first()[i]@ by {
                    assert(a.drop_first()[i] == a[i + 1]);
                    assert(b.drop_first()[i] == b[i + 1]);
                }
            }
            if c.len() > 0 {
                if b[0]@ == c[0]@ {
                    lemma_list_lt_views(a.drop_first(), b.drop_first(), c.drop_first());
                }
            }
        }
    }
    if b.len() > 0 && c.len() > 0 {
        if list_lt(a, b) && list_views_eq(b, c) {
            assert(b[0]@ == c[0]@);
            assert(list_views_eq(b.drop_first(), c.drop_first())) by {
                assert forall|i: int|
                    0 <= i < b.drop_first().len() implies (#[trigger] b.drop_first()[i])@
                    == c.drop_first()[i]@ by {
                    assert(b.drop_first()[i] == b[i + 1]);
                    assert(c.drop_first()[i] == c[i + 1]);
                }
            }
            if a.len() > 0 {
                if a[0]@ == b[0]@ {
                    lemma_list_lt_views(a.drop_first(), b.drop_first(), c.drop_first());
                }
            }
        }
    }
}

/// Executable test of `list_lt` on string lists.
fn string_list_lt(a: &Vec<String>, b: &Vec<String>) -> (r: bool)
    ensures
        r == list_lt(a@, b@),
{
    let an = a.len();
    let bn = b.len();
    let mut i: usize = 0;
    loop
        invariant
            i <= an,
            i <= bn,
            an == a@.len(),
            bn == b@.len(),
            forall|j: int| 0 <= j < i ==> (#[trigger] a@[j])@ == b@[j]@,
        ensures
            an == a@.len(),
            bn == b@.len(),
            i <= an,
            i <= bn,
            forall|j: int| 0 <= j < i ==> (#[trigger] a@[j])@ == b@[j]@,
            (i < an && i < bn) ==> a@[i as int]@ != b@[i as int]@,
            (i >= an || i >= bn) ==> i == an || i == bn,
        decreases an - i,
    {
        if i >= an || i >= bn {
            break ;
        }
        if !str_eq(a[i].as_str(), b[i].as_str()) {
            break ;
        }
        i = i + 1;
    }
    proof {
        lemma_list_lt_at(a@, b@, i as int);
    }
    if i < an && i < bn {
        str_lt(a[i].as_str(), b[i].as_str())
    } else {
        an < bn
    }
}

/// Where two lists agree on their first `i` elements, the order is decided
/// at position `i`.
proof fn lemma_list_lt_at(a: Seq<String>, b: Seq<String>, i: int)
    requires
        0 <= i <= a.len(),
        i <= b.len(),
        forall|j: int| 0 <= j < i ==> (#[trigger] a[j])@ == b[j]@,
    ensures
        i < a.len() && i < b.len() && a[i]@ != b[i]@ ==> (list_lt(a, b) <==> lex_lt(a[i]@, b[i]@)),
        i == a.len() ==> (list_lt(a, b) <==> a.len() < b.len()),
        i == b.len() && i < a.len() ==> !list_lt(a, b),
    decreases i,
{
    if i > 0 {
        let a1 = a.drop_first();
        let b1 = b.drop_first();
        assert forall|j: int| 0 <= j < i - 1 implies (#[trigger] a1[j])@ == b1[j]@ by {
            assert(a1[j] == a[j + 1]);
            assert(b1[j] == b[j + 1]);
        }
        lemma_list_lt_at(a1, b1, i - 1);
        assert(a[0]@ == b[0]@);
    }
}

/// Package pins in ascending order.
pub open spec fn packages_sorted(s: Seq<Package>) -> bool {
    forall|i: int, j: int| 0 <= i < j < s.len() ==> package_le(#[trigger] s[i], #[trigger] s[j])
}

proof fn lemma_package_le_total(a: Package, b: Package)
    ensures
        package_le(a, b) || package_le(b, a),
{
    lemma_lex_lt_total(a.name@, b.name@);
    if a.name@ == b.name@ {
        lemma_lex_lt_total(a.semver@, b.semver@);
        if a.semver@ == b.semver@ {
            lemma_list_lt_total(a.features@, b.features@);
            if list_views_eq(a.features@, b.features@) {
                assert forall|i: int| 0 <= i < b.features@.len() implies (
                #[trigger] b.features@[i])@ == a.features@[i]@ by {
                    assert(a.features@[i]@ == b.features@[i]@);
                }
                assert(list_views_eq(b.features@, a.features@));
            }
        }
    }
}

proof fn lemma_package_le_trans(a: Package, b: Package, c: Package)
    requires
        package_le(a, b),
        package_le(b, c),
    ensures
        package_le(a, c),
{
    if lex_lt(a.name@, b.name@) && lex_lt(b.name@, c.name@) {
        lemma_lex_lt_trans(a.name@, b.name@, c.name@);
    }
    if a.name@ == b.name@ && a.name@ == c.name@ {
        if lex_lt(a.semver@, b.semver@) && lex_lt(b.semver@, c.semver@) {
            lemma_lex_lt_trans(a.semver@, b.semver@, c.semver@);
        }
        if a.semver@ == b.semver@ && b.semver@ == c.semver@ {
            if list_lt(a.features@, b.features@) && list_lt(b.features@, c.features@) {
                lemma_list_lt_trans(a.features@, b.features@, c.features@);
            }
            lemma_list_lt_views(a.features@, b.features@, c.features@);
        }
    }
}

/// The sort comparison, executable.
fn package_le_exec(a: &Package, b: &Package) -> (r: bool)
    ensures
        r == package_le(*a, *b),
{
    if str_lt(a.name.as_str(), b.name.as_str()) {
        true
    } else if str_eq(a.name.as_str(), b.name.as_str()) {
        if str_lt(a.semver.as_str(), b.semver.as_str()) {
            true
        } else if str_eq(a.semver.as_str(), b.semver.as_str()) {
            if string_list_lt(&a.features, &b.features) {
                true
            } else {
                string_list_views_eq(&a.features, &b.features)
            }
        } else {
            false
        }
    } else {
        false
    }
}

/// Elementwise view equality of two string lists, executable.
fn string_list_views_eq(a: &Vec<String>, b: &Vec<String>) -> (r: bool)
    ensures
        r == list_views_eq(a@, b@),
{
    let an = a.len();
    if an != b.len() {
        return false;
    }
    let mut i: usize = 0;
    while i < an
        invariant
            i <= an,
            an == a@.len(),
            an == b@.len(),
            forall|j: int| 0 <= j < i ==> (#[trigger] a@[j])@ == b@[j]@,
        decreases an - i,
    {
        if !str_eq(a[i].as_str(), b[i].as_str()) {
            return false;
        }
        i = i + 1;
    }
    true
}

/// Inserts a pin into an already sorted vector, keeping it sorted.
fn insert_package_sorted(out: &mut Vec<Package>, x: Package)
    requires
        packages_sorted(old(out)@),
    ensures
        packages_sorted(final(out)@),
        final(out)@.to_multiset() == old(out)@.to_multiset().insert(x),
{
    let mut pos: usize = 0;
    let n = out.len();
    let ghost gx = x;
    loop
        invariant
            pos <= n,
            n == out@.len(),
            packages_sorted(out@),
            gx == x,
            forall|j: int| 0 <= j < pos ==> package_le(#[trigger] out@[j], gx),
        ensures
            pos <= n,
            n == out@.len(),
            forall|j: int| 0 <= j < pos ==> package_le(#[trigger] out@[j], gx),
            pos < n ==> package_le(gx, out@[pos as int]),
        decreases n - pos,
    {
        if pos >= n {
            break ;
        }
        if !package_le_exec(&out[pos], &x) {
            proof {
                lemma_package_le_total(out@[pos as int], gx);
            }
            break ;
        }
        pos = pos + 1;
    }
    let ghost old_seq = out@;
    out.insert(pos, x);
    proof {
        assert(out@ =~= old_seq.subrange(0, pos as int).push(gx) + old_seq.subrange(
            pos as int,
            old_seq.len() as int,
        ));
        crate::strutil::lemma_insert_multiset(old_seq, gx, pos as int);
        assert forall|i: int, j: int| 0 <= i < j < out@.len() implies package_le(
            #[trigger] out@[i],
            #[trigger] out@[j],
        ) by {
            if i < pos && j == pos {
                assert(package_le(out@[i], gx));
            } else if i == pos && j > pos {
                assert(out@[j] == old_seq[j - 1]);
                if pos < old_seq.len() {
                    if j - 1 > pos {
                        lemma_package_le_trans(gx, old_seq[pos as int], out@[j]);
                    }
                }
            } else if i < pos && j > pos {
                assert(out@[i] == old_seq[i] && out@[j] == old_seq[j - 1]);
            } else if i > pos && j > pos {
                assert(out@[i] == old_seq[i - 1] && out@[j] == old_seq[j - 1]);
            } else if i < pos && j < pos {
                assert(out@[i] == old_seq[i] && out@[j] == old_seq[j]);
            }
        }
    }
}

/// Sorts the package pins by (name, requirement), keeping exactly the
/// original pins.
pub fn sort_packages(v: &mut Vec<Package>)
    ensures
        packages_sorted(final(v)@),
        final(v)@.to_multiset() == old(v)@.to_multiset(),
{
    let ghost orig = v@;
    let n0 = v.len();
    assert(orig.len() <= usize::MAX);
    let mut out: Vec<Package> = Vec::new();
    let mut k: usize = 0;
    proof {
        broadcast use vstd::seq_lib::group_to_multiset_ensures;

        assert(v@.subrange(0, 0) =~= Seq::<Package>::empty());
        assert(out@.to_multiset() =~= v@.subrange(0, 0).to_multiset());
    }
    while v.len() > 0
        invariant
            orig == old(v)@,
            k <= orig.len(),
            orig.len() <= usize::MAX,
            v@ == orig.subrange(k as int, orig.len() as int),
            packages_sorted(out@),
            out@.to_multiset() == orig.subrange(0, k as int).to_multiset(),
        decreases v@.len(),
    {
        let x = v.remove(0);
        assert(x == orig[k as int]);
        insert_package_sorted(&mut out, x);
        proof {
            broadcast use vstd::seq_lib::group_to_multiset_ensures;

            assert(orig.subrange(0, k + 1) =~= orig.subrange(0, k as int).push(orig[k as int]));
            assert(orig.subrange(0, k + 1).to_multiset() =~= orig.subrange(
                0,
                k as int,
            ).to_multiset().insert(orig[k as int]));
            assert(v@ =~= orig.subrange(k + 1, orig.len() as int));
        }
        k = k + 1;
    }
    proof {
        assert(orig.subrange(0, k as int) =~= orig);
    }
    *v = out;
}


/// The preprocessed override carries exactly the configured one's containers.
pub open spec fn converted_override(a: Override, b: ConsolidatorOverride) -> bool {
    &&& b.extra_rust_env_vars == a.extra_rust_env_vars
    &&& b.extra_build_script_env_vars == a.extra_build_script_env_vars
    &&& b.extra_bazel_deps == a.extra_bazel_deps
    &&& b.extra_bazel_data_deps == a.extra_bazel_data_deps
    &&& b.extra_build_script_bazel_deps == a.extra_build_script_bazel_deps
    &&& b.extra_build_script_bazel_data_deps == a.extra_build_script_bazel_data_deps
    &&& b.features_to_remove == a.features_to_remove
}

/// Re-keys the configured overrides as consolidator overrides, keeping keys,
/// order and every container.
fn convert_overrides(src_dict: Dict<Override>) -> (r: Dict<ConsolidatorOverride>)
    requires
        src_dict.wf(),
    ensures
        r.wf(),
        r.entries@.len() == src_dict.entries@.len(),
        forall|i: int|
            0 <= i < r.entries@.len() ==> (#[trigger] r.entries@[i]).0 == src_dict.entries@[i].0
                && converted_override(src_dict.entries@[i].1, r.entries@[i].1),
{
    let ghost orig = src_dict.entries@;
    let mut src_entries = src_dict.entries;
    let n0 = src_entries.len();
    let mut out: Vec<(String, ConsolidatorOverride)> = Vec::new();
    let mut k: usize = 0;
    while src_entries.len() > 0
        invariant
            orig == src_dict.entries@,
            k <= orig.len(),
            orig.len() <= usize::MAX,
            src_entries@ == orig.subrange(k as int, orig.len() as int),
            out@.len() == k,
            forall|i: int|
                0 <= i < k ==> (#[trigger] out@[i]).0 == orig[i].0 && converted_override(
                    orig[i].1,
                    out@[i].1,
                ),
        decreases src_entries@.len(),
    {
        let (name, o) = src_entries.remove(0);
        proof {
            assert((name, o) == orig[k as int]);
        }
        let Override {
            extra_rust_env_vars,
            extra_build_script_env_vars,
            extra_bazel_deps,
            extra_bazel_data_deps,
            extra_build_script_bazel_deps,
            extra_build_script_bazel_data_deps,
            features_to_remove,
        } = o;
        out.push(
            (
                name,
                ConsolidatorOverride {
                    extra_rust_env_vars,
                    extra_build_script_env_vars,
                    extra_bazel_deps,
                    extra_bazel_data_deps,
                    extra_build_script_bazel_deps,
                    extra_build_script_bazel_data_deps,
                    features_to_remove,
                },
            ),
        );
        proof {
            assert(src_entries@ =~= orig.subrange(k + 1, orig.len() as int));
        }
        k = k + 1;
    }
    proof {
        assert(orig.subrange(k as int, orig.len() as int).len() == 0);
        assert(k == orig.len());
    }
    let r = Dict { entries: out };
    proof {
        assert forall|i: int, j: int| 0 <= i < j < r.entries@.len() implies crate::strutil::lex_lt(
            #[trigger] r.entries@[i].0@,
            #[trigger] r.entries@[j].0@,
        ) by {
            assert(r.entries@[i].0 == orig[i].0);
            assert(r.entries@[j].0 == orig[j].0);
            assert(crate::strutil::lex_lt(orig[i].0@, orig[j].0@));
        }
    }
    r
}

impl Config {
    /// Sorts the package pins, merges the labelled manifests into one
    /// dependency table, re-keys the overrides, and hands everything to the
    /// resolver stage. Merger failures pass through unchanged.
    pub fn preprocess(self, manifests: &Vec<ManifestInput>) -> (r: Result<Resolver, Error>)
        requires
            self.overrides.wf(),
        ensures
            match r {
                Ok(rv) => {
                    &&& packages_sorted(rv.packages@)
                    &&& rv.packages@.to_multiset() == self.packages@.to_multiset()
                    &&& rv.deps.wf()
                    &&& forall|nm: Seq<char>|
                        match #[trigger] crate::dict::assoc_get(rv.deps.entries@, nm) {
                            Some(sp) => declares(manifests@, nm, sp@) && (forall|q: Seq<char>|
                                #![trigger declares(manifests@, nm, q)]
                                declares(manifests@, nm, q) ==> q == sp@),
                            None => forall|sp: Seq<char>|
                                #![trigger declares(manifests@, nm, sp)]
                                !declares(manifests@, nm, sp),
                        }
                    &&& rv.patch == first_patch(manifests@)
                    &&& patch_count(manifests@) <= 1
                    &&& rv.label_to_crates.wf()
                    &&& forall|a: int|
                        0 <= a < manifests@.len() ==> match crate::dict::assoc_get(
                            rv.label_to_crates.entries@,
                            (#[trigger] manifests@[a]).label@,
                        ) {
                            Some(cs) => strings_sorted_unique(cs@) && crate::dict::views_of(cs@)
                                == dep_names(manifests@[a]),
                            None => false,
                        }
                    &&& forall|t: int|
                        0 <= t < rv.label_to_crates.entries@.len() ==> exists|a: int|
                            0 <= a < manifests@.len() && (
                            #[trigger] rv.label_to_crates.entries@[t]).0@ == (
                            #[trigger] manifests@[a]).label@
                    &&& rv.consolidator_config.overrides.wf()
                    &&& rv.consolidator_config.overrides.entries@.len()
                        == self.overrides.entries@.len()
                    &&& forall|i: int|
                        0 <= i < self.overrides.entries@.len() ==> (
                        #[trigger] rv.consolidator_config.overrides.entries@[i]).0
                            == self.overrides.entries@[i].0 && converted_override(
                            self.overrides.entries@[i].1,
                            rv.consolidator_config.overrides.entries@[i].1,
                        )
                    &&& rv.render_config.repository_template == self.repository_template
                    &&& rv.resolver_config.cargo == self.cargo
                    &&& rv.target_triples == self.target_triples
                    &&& rv.digest is None
                },
                Err(e) => match e {
                    Error::ManifestConflict(nm) => conflicted(manifests@, nm@),
                    Error::PatchConflict => patch_count(manifests@) >= 2,
                    Error::ConfigParse(_) => exists|a: int, b: int|
                        0 <= a < b < manifests@.len() && (#[trigger] manifests@[a]).label@ == (
                        #[trigger] manifests@[b]).label@,
                    _ => false,
                },
            },
    {
        let Config {
            packages: mut packages,
            cargo_toml_files: _cargo_toml_files,
            overrides,
            repository_template,
            target_triples,
            cargo,
        } = self;
        sort_packages(&mut packages);
        let merged = match merge_manifest_deps(manifests) {
            Ok(m) => m,
            Err(e) => {
                return Err(e);
            },
        };
        let converted = convert_overrides(overrides);
        Ok(
            Resolver::new(
                merged.deps,
                packages,
                merged.patch,
                ResolverConfig { cargo },
                ConsolidatorConfig { overrides: converted },
                RenderConfig { repository_template },
                target_triples,
                merged.label_to_crates,
            ),
        )
    }
}

/// A character as it appears after version sanitization: the separators that
/// the build tool refuses in a rule name become underscores.
pub open spec fn sanitize_version_char(c: char) -> char {
    if c == '.' || c == '+' || c == '-' {
        '_'
    } else {
        c
    }
}

/// Version string with `.`, `+` and `-` replaced by `_`.
pub open spec fn sanitized_version(s: Seq<char>) -> Seq<char> {
    s.map_values(|c: char| sanitize_version_char(c))
}

/// A crate-name character after sanitization: hyphens become underscores.
pub open spec fn sanitize_name_char(c: char) -> char {
    if c == '-' {
        '_'
    } else {
        c
    }
}

/// Crate name with `-` replaced by `_`.
pub open spec fn sanitized_name(s: Seq<char>) -> Seq<char> {
    s.map_values(|c: char| sanitize_name_char(c))
}

/// The name of the archive-fetch rule for one (crate name, version) pair.
pub open spec fn repo_rule_name_spec(name: Seq<char>, version: Seq<char>) -> Seq<char> {
    "__"@ + sanitized_name(name) + "__"@ + sanitized_version(version)
}

/// The fully qualified target label for one (crate name, version) pair.
pub open spec fn crate_label_spec(name: Seq<char>, version: Seq<char>) -> Seq<char> {
    "@"@ + repo_rule_name_spec(name, version) + "//:"@ + sanitized_name(name)
}

/// Copy of `s` with every `-` replaced by `_`.
pub fn sanitize_dep_name(s: &str) -> (r: String)
    ensures
        r@ == sanitized_name(s@),
{
    let n = s.unicode_len();
    let mut r = String::new();
    let mut i: usize = 0;
    while i < n
        invariant
            i <= n,
            n == s@.len(),
            r@ == sanitized_name(s@.subrange(0, i as int)),
        decreases n - i,
    {
        let c = s.get_char(i);
        if c == '-' {
            r.append("_");
            proof {
                reveal_strlit("_");
            }
        } else {
            let piece = s.substring_char(i, i + 1);
            r.append(piece);
        }
        proof {
            assert(r@ =~= sanitized_name(s@.subrange(0, (i + 1) as int)));
        }
        i = i + 1;
    }
    proof {
        assert(s@.subrange(0, n as int) =~= s@);
    }
    r
}

/// Copy of `s` with every `.`, `+` and `-` replaced by `_`.
fn sanitize_version(s: &str) -> (r: String)
    ensures
        r@ == sanitized_version(s@),
{
    let n = s.unicode_len();
    let mut r = String::new();
    let mut i: usize = 0;
    while i < n
        invariant
            i <= n,
            n == s@.len(),
            r@ == sanitized_version(s@.subrange(0, i as int)),
        decreases n - i,
    {
        let c = s.get_char(i);
        if c == '.' || c == '+' || c == '-' {
            r.append("_");
            proof {
                reveal_strlit("_");
            }
        } else {
            let piece = s.substring_char(i, i + 1);
            r.append(piece);
        }
        proof {
            assert(r@ =~= sanitized_version(s@.subrange(0, (i + 1) as int)));
        }
        i = i + 1;
    }
    proof {
        assert(s@.subrange(0, n as int) =~= s@);
    }
    r
}

/// Generate the archive-fetch rule name for a crate,
/// e.g. version `0.18.0-alpha.2+test` becomes `0_18_0_alpha_2_test`.
pub fn crate_to_repo_rule_name(name: &str, version: &str) -> (r: String)
    ensures
        r@ == repo_rule_name_spec(name@, version@),
{
    let mut r = String::from_str("__");
    r.append(sanitize_dep_name(name).as_str());
    r.append("__");
    r.append(sanitize_version(version).as_str());
    proof {
        assert(r@ =~= repo_rule_name_spec(name@, version@));
    }
    r
}

/// The label through which the build tool reaches the crate's main target.
pub fn crate_to_label(crate_name: &str, crate_version: &str) -> (r: String)
    ensures
        r@ == crate_label_spec(crate_name@, crate_version@),
{
    let mut r = String::from_str("@");
    r.append(crate_to_repo_rule_name(crate_name, crate_version).as_str());
    r.append("//:");
    r.append(sanitize_dep_name(crate_name).as_str());
    proof {
        assert(r@ =~= crate_label_spec(crate_name@, crate_version@));
    }
    r
}

} // verus!
