//! Folds the pinned graph, the overrides and the per-platform resolutions
//! into one canonically ordered model keyed by (crate name, version).
use crate::config::{crate_label_spec, crate_to_label};
use crate::dict::{
    assoc_get, entries_sorted, insert_string_set, string_set_contains, strings_sorted_unique,
    views_of, Dict,
};
use crate::model::{
    BuildTarget, ConsolidatorOverride, DepEdge, EdgeKind, Error, PackageSource, ResolvedPackage,
    TargetKind,
};
use crate::platform::{selector_ok, selector_triples, unify, DepGroup, Selector};
use crate::renderer::{crate_target_names, RenderConfig};
use crate::strutil::{lemma_lex_lt_total, lemma_lex_lt_trans, lex_le, lex_lt, str_eq, str_lt};
use vstd::prelude::*;
use vstd::string::*;

verus! {


/// The consolidator's own configuration: the per-crate overrides.
pub struct ConsolidatorConfig {
    pub overrides: Dict<ConsolidatorOverride>,
}

/// Everything consolidation needs: the sorted pinned graph, the overrides,
/// the digest to embed, the configured triples, the chosen-version map, and
/// the label-to-crates map.
pub struct Consolidator {
    pub consolidator_config: ConsolidatorConfig,
    pub render_config: RenderConfig,
    pub digest: String,
    pub target_triples: Vec<String>,
    pub resolved_packages: Vec<ResolvedPackage>,
    pub member_packages_version_mapping: Dict<String>,
    pub label_to_crates: Dict<Vec<String>>,
}

/// The crate has a build-script target.
pub open spec fn has_build_script_target(p: ResolvedPackage) -> bool {
    exists|t: int|
        0 <= t < p.targets@.len() && (#[trigger] p.targets@[t]).kind == TargetKind::BuildScript
}

/// The crate's main kind: a proc-macro outranks a library, a library a
/// binary.
pub open spec fn spec_main_kind(p: ResolvedPackage) -> TargetKind {
    if exists|t: int|
        0 <= t < p.targets@.len() && (#[trigger] p.targets@[t]).kind == TargetKind::ProcMacro {
        TargetKind::ProcMacro
    } else if exists|t: int|
        0 <= t < p.targets@.len() && (#[trigger] p.targets@[t]).kind == TargetKind::Library {
        TargetKind::Library
    } else {
        TargetKind::Binary
    }
}

/// Whether the crate has a build-script target, and its main kind.
fn scan_targets(targets: &Vec<BuildTarget>, p: Ghost<ResolvedPackage>) -> (r: (bool, TargetKind))
    requires
        p@.targets == *targets,
    ensures
        r.0 == has_build_script_target(p@),
        r.1 == spec_main_kind(p@),
{
    let n = targets.len();
    let mut has_bs = false;
    let mut has_pm = false;
    let mut has_lib = false;
    let mut t: usize = 0;
    while t < n
        invariant
            t <= n,
            n == targets@.len(),
            has_bs == exists|i: int|
                0 <= i < t && (#[trigger] targets@[i]).kind == TargetKind::BuildScript,
            has_pm == exists|i: int|
                0 <= i < t && (#[trigger] targets@[i]).kind == TargetKind::ProcMacro,
            has_lib == exists|i: int|
                0 <= i < t && (#[trigger] targets@[i]).kind == TargetKind::Library,
        decreases n - t,
    {
        let k = targets[t].kind;
        if k == TargetKind::BuildScript {
            has_bs = true;
        }
        if k == TargetKind::ProcMacro {
            has_pm = true;
        }
        if k == TargetKind::Library {
            has_lib = true;
        }
        t = t + 1;
    }
    let kind = if has_pm {
        TargetKind::ProcMacro
    } else if has_lib {
        TargetKind::Library
    } else {
        TargetKind::Binary
    };
    (has_bs, kind)
}

/// Every feature name the resolver enabled on any triple.
pub open spec fn all_features(p: ResolvedPackage) -> Set<Seq<char>> {
    Set::new(
        |f: Seq<char>|
            exists|a: int, b: int|
                0 <= a < p.features_by_triple@.len() && 0 <= b < (
                #[trigger] p.features_by_triple@[a]).1@.len() && (
                #[trigger] p.features_by_triple@[a].1@[b])@ == f,
    )
}

/// Features enabled at positions before (t, k), scanning triples in order.
pub open spec fn features_upto(p: ResolvedPackage, t: int, k: int) -> Set<Seq<char>> {
    Set::new(
        |f: Seq<char>|
            exists|a: int, b: int|
                0 <= a < p.features_by_triple@.len() && 0 <= b < (
                #[trigger] p.features_by_triple@[a]).1@.len() && (a < t || (a == t && b < k)) && (
                #[trigger] p.features_by_triple@[a].1@[b])@ == f,
    )
}

/// The union of the per-triple feature sets, minus the features the override
/// removes, sorted.
fn collect_features(p: &ResolvedPackage, removed: &Vec<String>, gp: Ghost<ResolvedPackage>) -> (r:
    Vec<String>)
    requires
        gp@ == *p,
        strings_sorted_unique(removed@),
    ensures
        strings_sorted_unique(r@),
        views_of(r@) == all_features(gp@).difference(views_of(removed@)),
{
    let n = p.features_by_triple.len();
    let mut acc: Vec<String> = Vec::new();
    let mut t: usize = 0;
    proof {
        assert(views_of(acc@) =~= features_upto(gp@, 0, 0).difference(views_of(removed@)));
    }
    while t < n
        invariant
            t <= n,
            gp@ == *p,
            strings_sorted_unique(removed@),
            n == p.features_by_triple@.len(),
            strings_sorted_unique(acc@),
            views_of(acc@) == features_upto(gp@, t as int, 0).difference(views_of(removed@)),
        decreases n - t,
    {
        let m = p.features_by_triple[t].1.len();
        let mut k: usize = 0;
        while k < m
            invariant
                t < n,
                k <= m,
                gp@ == *p,
                strings_sorted_unique(removed@),
                n == p.features_by_triple@.len(),
                m == p.features_by_triple@[t as int].1@.len(),
                strings_sorted_unique(acc@),
                views_of(acc@) == features_upto(gp@, t as int, k as int).difference(
                    views_of(removed@),
                ),
            decreases m - k,
        {
            let f = &p.features_by_triple[t].1[k];
            let ghost pre = views_of(acc@);
            if !string_set_contains(removed, f.as_str()) {
                insert_string_set(&mut acc, f.clone());
            }
            proof {
                assert(views_of(acc@) =~= features_upto(gp@, t as int, k + 1).difference(
                    views_of(removed@),
                )) by {
                    let fv = p.features_by_triple@[t as int].1@[k as int]@;
                    assert forall|x: Seq<char>|
                        features_upto(gp@, t as int, k + 1).contains(x) == (features_upto(
                            gp@,
                            t as int,
                            k as int,
                        ).contains(x) || x == fv) by {
                        if features_upto(gp@, t as int, k + 1).contains(x) {
                            let (a, b) = choose|a: int, b: int|
                                0 <= a < gp@.features_by_triple@.len() && 0 <= b < (
                                #[trigger] gp@.features_by_triple@[a]).1@.len() && (a < t as int
                                    || (a == t as int && b < k + 1)) && (
                                #[trigger] gp@.features_by_triple@[a].1@[b])@ == x;
                            if a == t as int && b == k as int {
                            } else {
                                assert(features_upto(gp@, t as int, k as int).contains(x));
                            }
                        }
                        if features_upto(gp@, t as int, k as int).contains(x) {
                            let (a, b) = choose|a: int, b: int|
                                0 <= a < gp@.features_by_triple@.len() && 0 <= b < (
                                #[trigger] gp@.features_by_triple@[a]).1@.len() && (a < t as int
                                    || (a == t as int && b < k as int)) && (
                                #[trigger] gp@.features_by_triple@[a].1@[b])@ == x;
                            assert(features_upto(gp@, t as int, k + 1).contains(x));
                        }
                        if x == fv {
                            assert(features_upto(gp@, t as int, k + 1).contains(x));
                        }
                    }
                }
            }
            k = k + 1;
        }
        proof {
            assert(views_of(acc@) =~= features_upto(gp@, t + 1, 0).difference(
                views_of(removed@),
            )) by {
                assert forall|x: Seq<char>|
                    features_upto(gp@, t + 1, 0).contains(x) == features_upto(
                        gp@,
                        t as int,
                        m as int,
                    ).contains(x) by {
                    if features_upto(gp@, t + 1, 0).contains(x) {
                        let (a, b) = choose|a: int, b: int|
                            0 <= a < gp@.features_by_triple@.len() && 0 <= b < (
                            #[trigger] gp@.features_by_triple@[a]).1@.len() && (a < t + 1 || (a == t
                                + 1 && b < 0)) && (#[trigger] gp@.features_by_triple@[a].1@[b])@
                                == x;
                        assert(features_upto(gp@, t as int, m as int).contains(x));
                    }
                    if features_upto(gp@, t as int, m as int).contains(x) {
                        let (a, b) = choose|a: int, b: int|
                            0 <= a < gp@.features_by_triple@.len() && 0 <= b < (
                            #[trigger] gp@.features_by_triple@[a]).1@.len() && (a < t as int || (a
                                == t as int && b < m as int)) && (
                            #[trigger] gp@.features_by_triple@[a].1@[b])@ == x;
                        assert(features_upto(gp@, t + 1, 0).contains(x));
                    }
                }
            }
        }
        t = t + 1;
    }
    proof {
        assert(views_of(acc@) =~= all_features(gp@).difference(views_of(removed@))) by {
            assert forall|x: Seq<char>|
                features_upto(gp@, n as int, 0).contains(x) == all_features(gp@).contains(x) by {
                if all_features(gp@).contains(x) {
                    let (a, b) = choose|a: int, b: int|
                        0 <= a < gp@.features_by_triple@.len() && 0 <= b < (
                        #[trigger] gp@.features_by_triple@[a]).1@.len() && (
                        #[trigger] gp@.features_by_triple@[a].1@[b])@ == x;
                    assert(features_upto(gp@, n as int, 0).contains(x));
                }
                if features_upto(gp@, n as int, 0).contains(x) {
                    let (a, b) = choose|a: int, b: int|
                        0 <= a < gp@.features_by_triple@.len() && 0 <= b < (
                        #[trigger] gp@.features_by_triple@[a]).1@.len() && (a < n as int || (a == n
                            && b < 0)) && (#[trigger] gp@.features_by_triple@[a].1@[b])@ == x;
                    assert(all_features(gp@).contains(x));
                }
            }
        }
    }
    acc
}

/// Whether an edge of this kind belongs to the wanted category: build-script
/// edges, or the runtime edges (normal and proc-macro).
pub open spec fn edge_wanted(k: EdgeKind, build: bool) -> bool {
    if build {
        k == EdgeKind::Build
    } else {
        k == EdgeKind::Normal || k == EdgeKind::ProcMacro
    }
}

/// The labels of the wanted edges.
pub open spec fn edge_label_set(edges: Seq<DepEdge>, build: bool) -> Set<Seq<char>> {
    Set::new(
        |l: Seq<char>|
            exists|e: int|
                0 <= e < edges.len() && edge_wanted((#[trigger] edges[e]).kind, build)
                    && crate_label_spec(edges[e].name@, edges[e].version@) == l,
    )
}

/// The labels of the wanted edges among the first `upto`.
pub open spec fn edge_label_upto(edges: Seq<DepEdge>, upto: int, build: bool) -> Set<Seq<char>> {
    Set::new(
        |l: Seq<char>|
            exists|e: int|
                0 <= e < upto && e < edges.len() && edge_wanted((#[trigger] edges[e]).kind, build)
                    && crate_label_spec(edges[e].name@, edges[e].version@) == l,
    )
}

/// The sorted set of target labels for the wanted edges.
fn edge_labels(edges: &Vec<DepEdge>, build: bool) -> (r: Vec<String>)
    ensures
        strings_sorted_unique(r@),
        views_of(r@) == edge_label_set(edges@, build),
{
    let n = edges.len();
    let mut acc: Vec<String> = Vec::new();
    let mut e: usize = 0;
    proof {
        assert(views_of(acc@) =~= edge_label_upto(edges@, 0, build));
    }
    while e < n
        invariant
            e <= n,
            n == edges@.len(),
            strings_sorted_unique(acc@),
            views_of(acc@) == edge_label_upto(edges@, e as int, build),
        decreases n - e,
    {
        let k = edges[e].kind;
        let wanted = if build {
            k == EdgeKind::Build
        } else {
            k == EdgeKind::Normal || k == EdgeKind::ProcMacro
        };
        if wanted {
            let l = crate_to_label(edges[e].name.as_str(), edges[e].version.as_str());
            insert_string_set(&mut acc, l);
        }
        proof {
            assert(views_of(acc@) =~= edge_label_upto(edges@, e + 1, build)) by {
                assert forall|x: Seq<char>|
                    edge_label_upto(edges@, e + 1, build).contains(x) == (edge_label_upto(
                        edges@,
                        e as int,
                        build,
                    ).contains(x) || (edge_wanted(edges@[e as int].kind, build)
                        && crate_label_spec(edges@[e as int].name@, edges@[e as int].version@)
                        == x)) by {
                    if edge_label_upto(edges@, e + 1, build).contains(x) {
                        let e0 = choose|e0: int|
                            0 <= e0 < e + 1 && e0 < edges@.len() && edge_wanted(
                                (#[trigger] edges@[e0]).kind,
                                build,
                            ) && crate_label_spec(edges@[e0].name@, edges@[e0].version@) == x;
                        if e0 < e as int {
                            assert(edge_label_upto(edges@, e as int, build).contains(x));
                        }
                    }
                    if edge_label_upto(edges@, e as int, build).contains(x) {
                        let e0 = choose|e0: int|
                            0 <= e0 < e && e0 < edges@.len() && edge_wanted(
                                (#[trigger] edges@[e0]).kind,
                                build,
                            ) && crate_label_spec(edges@[e0].name@, edges@[e0].version@) == x;
                        assert(edge_label_upto(edges@, e + 1, build).contains(x));
                    }
                    if edge_wanted(edges@[e as int].kind, build) && crate_label_spec(
                        edges@[e as int].name@,
                        edges@[e as int].version@,
                    ) == x {
                        assert(edge_label_upto(edges@, e + 1, build).contains(x));
                    }
                }
            }
        }
        e = e + 1;
    }
    proof {
        assert(views_of(acc@) =~= edge_label_set(edges@, build)) by {
            assert forall|x: Seq<char>|
                edge_label_upto(edges@, n as int, build).contains(x) == edge_label_set(
                    edges@,
                    build,
                ).contains(x) by {
                if edge_label_set(edges@, build).contains(x) {
                    let e0 = choose|e0: int|
                        0 <= e0 < edges@.len() && edge_wanted((#[trigger] edges@[e0]).kind, build)
                            && crate_label_spec(edges@[e0].name@, edges@[e0].version@) == x;
                    assert(edge_label_upto(edges@, n as int, build).contains(x));
                }
                if edge_label_upto(edges@, n as int, build).contains(x) {
                    let e0 = choose|e0: int|
                        0 <= e0 < n && e0 < edges@.len() && edge_wanted(
                            (#[trigger] edges@[e0]).kind,
                            build,
                        ) && crate_label_spec(edges@[e0].name@, edges@[e0].version@) == x;
                    assert(edge_label_set(edges@, build).contains(x));
                }
            }
        }
    }
    acc
}

/// No two crates of the graph share a (name, version) pair.
pub open spec fn graph_unique(s: Seq<ResolvedPackage>) -> bool {
    forall|i: int, j: int|
        0 <= i < j < s.len() ==> !((#[trigger] s[i]).name@ == (#[trigger] s[j]).name@
            && s[i].version@ == s[j].version@)
}

/// The per-triple edge table carries one row per configured triple, in
/// configuration order.
pub open spec fn deps_aligned(p: ResolvedPackage, triples: Seq<String>) -> bool {
    &&& p.deps_by_triple@.len() == triples.len()
    &&& forall|t: int|
        0 <= t < triples.len() ==> (#[trigger] p.deps_by_triple@[t]).0@ == triples[t]@
}

/// Checks the per-triple edge table against the configured triples.
fn check_aligned(p: &ResolvedPackage, triples: &Vec<String>, gp: Ghost<ResolvedPackage>) -> (r:
    bool)
    requires
        gp@ == *p,
    ensures
        r == deps_aligned(gp@, triples@),
{
    let n = triples.len();
    if p.deps_by_triple.len() != n {
        return false;
    }
    let mut t: usize = 0;
    while t < n
        invariant
            t <= n,
            gp@ == *p,
            n == triples@.len(),
            n == p.deps_by_triple@.len(),
            forall|i: int| 0 <= i < t ==> (#[trigger] p.deps_by_triple@[i]).0@ == triples@[i]@,
        decreases n - t,
    {
        if !str_eq(p.deps_by_triple[t].0.as_str(), triples[t].as_str()) {
            return false;
        }
        t = t + 1;
    }
    true
}

/// Valid groups: each selector names configured triples and carries at least
/// one label.
pub open spec fn groups_ok(gs: Seq<DepGroup>, triples: Seq<String>) -> bool {
    forall|g: int|
        0 <= g < gs.len() ==> selector_ok((#[trigger] gs[g]).selector, triples) && gs[g].labels@.len()
            > 0
}

/// The distinct-triples precondition of unification, checked.
pub fn triples_distinct(v: &Vec<String>) -> (r: bool)
    ensures
        r == (forall|i: int, j: int|
            0 <= i < j < v@.len() ==> (#[trigger] v@[i])@ != (#[trigger] v@[j])@),
{
    let n = v.len();
    let mut i: usize = 0;
    while i < n
        invariant
            i <= n,
            n == v@.len(),
            forall|a: int, b: int| 0 <= a < b < n && a < i ==> (#[trigger] v@[a])@ != (#[trigger] v@[b])@,
        decreases n - i,
    {
        let mut j: usize = i + 1;
        while j < n
            invariant
                i < n,
                i < j,
                j <= n,
                n == v@.len(),
                forall|a: int, b: int| 0 <= a < b < n && a < i ==> (#[trigger] v@[a])@ != (#[trigger] v@[b])@,
                forall|b: int| i < b < j ==> (#[trigger] v@[b])@ != v@[i as int]@,
            decreases n - j,
        {
            if str_eq(v[i].as_str(), v[j].as_str()) {
                return false;
            }
            j = j + 1;
        }
        i = i + 1;
    }
    true
}

/// One of the override's four dependency maps names `pr` with a non-empty
/// list.
pub open spec fn pred_in_override(o: ConsolidatorOverride, pr: Seq<char>) -> bool {
    ||| (match assoc_get(o.extra_bazel_deps.entries@, pr) {
        Some(ls) => ls@.len() > 0,
        None => false,
    })
    ||| (match assoc_get(o.extra_bazel_data_deps.entries@, pr) {
        Some(ls) => ls@.len() > 0,
        None => false,
    })
    ||| (match assoc_get(o.extra_build_script_bazel_deps.entries@, pr) {
        Some(ls) => ls@.len() > 0,
        None => false,
    })
    ||| (match assoc_get(o.extra_build_script_bazel_data_deps.entries@, pr) {
        Some(ls) => ls@.len() > 0,
        None => false,
    })
}

/// A predicate the pipeline does not recognize: not a configured triple, not
/// the always-true predicate, and absent from the helper's table.
pub open spec fn pred_unknown(
    pr: Seq<char>,
    triples: Seq<String>,
    cfg_matches: Dict<Vec<String>>,
) -> bool {
    &&& pr != "cfg(all())"@
    &&& !views_of(triples).contains(pr)
    &&& assoc_get(cfg_matches.entries@, pr) is None
}

/// The triples before `u` that the helper's list names.
pub open spec fn matched_upto(triples: Seq<String>, msel: Seq<String>, u: int) -> Set<Seq<char>> {
    Set::new(
        |tr: Seq<char>|
            exists|w: int|
                0 <= w < u && (#[trigger] triples[w])@ == tr && views_of(msel).contains(tr),
    )
}

proof fn lemma_views_push(s: Seq<String>, x: String)
    ensures
        views_of(s.push(x)) =~= views_of(s).insert(x@),
{
    assert forall|tr: Seq<char>|
        views_of(s.push(x)).contains(tr) == views_of(s).insert(x@).contains(tr) by {
        if views_of(s.push(x)).contains(tr) {
            let i = choose|i: int| 0 <= i < s.push(x).len() && (#[trigger] s.push(x)[i])@ == tr;
            if i < s.len() {
                assert(s[i]@ == tr);
            }
        } else {
            if tr == x@ {
                assert(s.push(x)[s.len() as int]@ == tr);
            }
            if views_of(s).contains(tr) {
                let i = choose|i: int| 0 <= i < s.len() && (#[trigger] s[i])@ == tr;
                assert(s.push(x)[i]@ == tr);
            }
        }
    }
}

proof fn lemma_matched_upto_zero(triples: Seq<String>, msel: Seq<String>)
    ensures
        matched_upto(triples, msel, 0) =~= Set::<Seq<char>>::empty(),
{
}

proof fn lemma_matched_upto_step(triples: Seq<String>, msel: Seq<String>, u: int)
    requires
        0 <= u < triples.len(),
    ensures
        views_of(msel).contains(triples[u]@) ==> matched_upto(triples, msel, u + 1)
            =~= matched_upto(triples, msel, u).insert(triples[u]@),
        !views_of(msel).contains(triples[u]@) ==> matched_upto(triples, msel, u + 1)
            =~= matched_upto(triples, msel, u),
{
    if views_of(msel).contains(triples[u]@) {
        assert forall|tr: Seq<char>|
            matched_upto(triples, msel, u + 1).contains(tr) == matched_upto(
                triples,
                msel,
                u,
            ).insert(triples[u]@).contains(tr) by {
            if matched_upto(triples, msel, u + 1).contains(tr) {
                let w = choose|w: int|
                    0 <= w < u + 1 && (#[trigger] triples[w])@ == tr && views_of(msel).contains(
                        tr,
                    );
                if w < u {
                    assert(matched_upto(triples, msel, u).contains(tr));
                }
            } else {
                if matched_upto(triples, msel, u).contains(tr) {
                    let w = choose|w: int|
                        0 <= w < u && (#[trigger] triples[w])@ == tr && views_of(msel).contains(
                            tr,
                        );
                    assert(0 <= w < u + 1 && triples[w]@ == tr && views_of(msel).contains(tr));
                }
                if tr == triples[u]@ {
                    assert(0 <= u < u + 1 && triples[u]@ == tr && views_of(msel).contains(tr));
                }
            }
        }
    } else {
        assert forall|tr: Seq<char>|
            matched_upto(triples, msel, u + 1).contains(tr) == matched_upto(
                triples,
                msel,
                u,
            ).contains(tr) by {
            if matched_upto(triples, msel, u + 1).contains(tr) {
                let w = choose|w: int|
                    0 <= w < u + 1 && (#[trigger] triples[w])@ == tr && views_of(msel).contains(
                        tr,
                    );
                assert(w < u);
                assert(matched_upto(triples, msel, u).contains(tr));
            } else {
                if matched_upto(triples, msel, u).contains(tr) {
                    let w = choose|w: int|
                        0 <= w < u && (#[trigger] triples[w])@ == tr && views_of(msel).contains(
                            tr,
                        );
                    assert(0 <= w < u + 1 && triples[w]@ == tr && views_of(msel).contains(tr));
                }
            }
        }
    }
}

proof fn lemma_matched_upto_full(triples: Seq<String>, msel: Seq<String>)
    ensures
        matched_upto(triples, msel, triples.len() as int) =~= Set::new(
            |tr: Seq<char>| views_of(msel).contains(tr) && views_of(triples).contains(tr),
        ),
{
    assert forall|tr: Seq<char>|
        matched_upto(triples, msel, triples.len() as int).contains(tr) == (views_of(
            msel,
        ).contains(tr) && views_of(triples).contains(tr)) by {
        if matched_upto(triples, msel, triples.len() as int).contains(tr) {
            let w = choose|w: int|
                0 <= w < triples.len() && (#[trigger] triples[w])@ == tr && views_of(
                    msel,
                ).contains(tr);
            assert(views_of(triples).contains(tr));
        } else {
            if views_of(msel).contains(tr) && views_of(triples).contains(tr) {
                let w = choose|w: int| 0 <= w < triples.len() && (#[trigger] triples[w])@ == tr;
                assert(0 <= w < triples.len() && triples[w]@ == tr && views_of(msel).contains(tr));
            }
        }
    }
}

/// The triples a recognized override selector stands for: a configured
/// triple selects itself, the always-true predicate selects every triple,
/// and any other predicate selects the configured triples the helper names
/// for it.
pub open spec fn expansion_of(
    key: Seq<char>,
    triples: Seq<String>,
    cfg_matches: Dict<Vec<String>>,
) -> Set<Seq<char>> {
    if key == "cfg(all())"@ {
        views_of(triples)
    } else if views_of(triples).contains(key) {
        Set::<Seq<char>>::empty().insert(key)
    } else {
        match assoc_get(cfg_matches.entries@, key) {
            Some(ts) => Set::new(
                |tr: Seq<char>| views_of(ts@).contains(tr) && views_of(triples).contains(tr),
            ),
            None => Set::<Seq<char>>::empty(),
        }
    }
}

/// One override entry accounted for: its selector is recognized, and where
/// it expands to any triple at all, some group carries exactly its label
/// list under a selector naming exactly that expansion.
pub open spec fn entry_placed(
    gs: Seq<DepGroup>,
    entry: (String, Vec<String>),
    triples: Seq<String>,
    cfg_matches: Dict<Vec<String>>,
) -> bool {
    &&& !pred_unknown(entry.0@, triples, cfg_matches)
    &&& ((exists|tr: Seq<char>|
        expansion_of(entry.0@, triples, cfg_matches).contains(tr)) ==> exists|g: int|
        0 <= g < gs.len() && (#[trigger] gs[g]).labels@ == entry.1@ && selector_triples(
            gs[g].selector,
            triples,
        ) == expansion_of(entry.0@, triples, cfg_matches))
}

/// Expands one override dependency map into selector groups: a key that is a
/// configured triple selects it alone; `cfg(all())` selects every triple; any
/// other predicate selects the configured triples the helper says it matches,
/// and is refused as `UnknownPredicate` where the helper does not know it.
/// Keys whose expansion selects no triple are dropped; label lists are kept
/// verbatim. On success every used entry is accounted for (`entry_placed`);
/// the failure comes exactly when a used entry's selector is unknown.
pub fn expand_override_deps(
    odeps: &Dict<Vec<String>>,
    triples: &Vec<String>,
    cfg_matches: &Dict<Vec<String>>,
) -> (r: Result<Vec<DepGroup>, Error>)
    requires
        odeps.wf(),
        forall|i: int, j: int|
            0 <= i < j < triples@.len() ==> (#[trigger] triples@[i])@ != (#[trigger] triples@[j])@,
    ensures
        match r {
            Ok(gs) => {
                &&& groups_ok(gs@, triples@)
                &&& forall|g: int|
                    0 <= g < gs@.len() ==> exists|e: int|
                        0 <= e < odeps.entries@.len() && (#[trigger] gs@[g]).labels@ == (
                        #[trigger] odeps.entries@[e]).1@
                &&& forall|e: int|
                    0 <= e < odeps.entries@.len() && (#[trigger] odeps.entries@[e]).1@.len() > 0
                        ==> entry_placed(gs@, odeps.entries@[e], triples@, *cfg_matches)
            },
            Err(e) => match e {
                Error::UnknownPredicate(pr) => {
                    &&& (match assoc_get(odeps.entries@, pr@) {
                        Some(ls) => ls@.len() > 0,
                        None => false,
                    })
                    &&& pred_unknown(pr@, triples@, *cfg_matches)
                },
                _ => false,
            },
        },
{
    let n = odeps.entries.len();
    let tn = triples.len();
    let mut out: Vec<DepGroup> = Vec::new();
    let mut e: usize = 0;
    while e < n
        invariant
            odeps.wf(),
            e <= n,
            n == odeps.entries@.len(),
            tn == triples@.len(),
            forall|i: int, j: int|
                0 <= i < j < triples@.len() ==> (#[trigger] triples@[i])@ != (
                #[trigger] triples@[j])@,
            groups_ok(out@, triples@),
            forall|g: int|
                0 <= g < out@.len() ==> exists|e2: int|
                    0 <= e2 < odeps.entries@.len() && (#[trigger] out@[g]).labels@ == (
                    #[trigger] odeps.entries@[e2]).1@,
            forall|e2: int|
                0 <= e2 < e && (#[trigger] odeps.entries@[e2]).1@.len() > 0 ==> entry_placed(
                    out@,
                    odeps.entries@[e2],
                    triples@,
                    *cfg_matches,
                ),
        decreases n - e,
    {
        let sel_str = &odeps.entries[e].0;
        let labels = &odeps.entries[e].1;
        let ghost key = sel_str@;
        let ghost exp = expansion_of(key, triples@, *cfg_matches);
        if labels.len() > 0 {
            let mut sel: Option<Selector> = None;
            if str_eq(sel_str.as_str(), "cfg(all())") {
                sel = Some(Selector::Default);
                proof {
                    assert(selector_triples(Selector::Default, triples@) == exp);
                    assert(!pred_unknown(key, triples@, *cfg_matches));
                }
            } else {
                // a concrete triple?
                let mut t: usize = 0;
                let mut hit = false;
                while t < tn
                    invariant_except_break
                        !hit,
                    invariant
                        t <= tn,
                        tn == triples@.len(),
                        key == sel_str@,
                        forall|i: int| 0 <= i < t ==> (#[trigger] triples@[i])@ != sel_str@,
                    ensures
                        tn == triples@.len(),
                        hit ==> t < tn && triples@[t as int]@ == sel_str@,
                        !hit ==> forall|i: int|
                            0 <= i < tn ==> (#[trigger] triples@[i])@ != sel_str@,
                    decreases tn - t,
                {
                    if t >= tn {
                        break ;
                    }
                    if str_eq(triples[t].as_str(), sel_str.as_str()) {
                        hit = true;
                        break ;
                    }
                    t = t + 1;
                }
                if hit {
                    let mut one: Vec<String> = Vec::new();
                    one.push(triples[t].clone());
                    let ghost gone = one@;
                    proof {
                        assert(gone.len() == 1);
                        assert(gone[0]@ == key);
                        assert(views_of(triples@).contains(key));
                        assert(views_of(gone) =~= Set::<Seq<char>>::empty().insert(key)) by {
                            assert forall|tr: Seq<char>|
                                views_of(gone).contains(tr) == (tr == key) by {
                                if views_of(gone).contains(tr) {
                                    let i = choose|i: int|
                                        0 <= i < gone.len() && (#[trigger] gone[i])@ == tr;
                                } else {
                                    if tr == key {
                                        assert(gone[0]@ == tr);
                                    }
                                }
                            }
                        }
                        assert(exp == views_of(gone));
                        assert(!pred_unknown(key, triples@, *cfg_matches));
                    }
                    sel = Some(Selector::Subset(one));
                } else {
                    match cfg_matches.get(sel_str.as_str()) {
                        Some(matched) => {
                            proof {
                                assert(!views_of(triples@).contains(key)) by {
                                    if views_of(triples@).contains(key) {
                                        let w = choose|w: int|
                                            0 <= w < triples@.len() && (#[trigger] triples@[w])@
                                                == key;
                                    }
                                }
                                assert(!pred_unknown(key, triples@, *cfg_matches));
                            }
                            // the triples the helper names, in configured order
                            let mut sub: Vec<String> = Vec::new();
                            let mut t2: usize = 0;
                            proof {
                                lemma_matched_upto_zero(triples@, matched@);
                                assert forall|tr: Seq<char>| !views_of(sub@).contains(tr) by {
                                    if views_of(sub@).contains(tr) {
                                        let i = choose|i: int|
                                            0 <= i < sub@.len() && (#[trigger] sub@[i])@ == tr;
                                    }
                                }
                                assert(views_of(sub@) =~= matched_upto(triples@, matched@, 0));
                            }
                            while t2 < tn
                                invariant
                                    t2 <= tn,
                                    tn == triples@.len(),
                                    forall|i: int, j: int|
                                        0 <= i < j < triples@.len() ==> (#[trigger] triples@[i])@
                                            != (#[trigger] triples@[j])@,
                                    forall|k: int|
                                        0 <= k < sub@.len() ==> exists|w: int|
                                            0 <= w < t2 && (#[trigger] sub@[k])@ == (
                                            #[trigger] triples@[w])@,
                                    forall|k: int, l: int|
                                        0 <= k < l < sub@.len() ==> (#[trigger] sub@[k])@ != (
                                        #[trigger] sub@[l])@,
                                    views_of(sub@) == matched_upto(triples@, matched@, t2 as int),
                                decreases tn - t2,
                            {
                                let ghost preset = views_of(sub@);
                                let here = string_set_contains(matched, triples[t2].as_str());
                                proof {
                                    lemma_matched_upto_step(triples@, matched@, t2 as int);
                                }
                                if here {
                                    let ghost pre = sub@;
                                    sub.push(triples[t2].clone());
                                    proof {
                                        assert(sub@ =~= pre.push(triples@[t2 as int]));
                                        assert forall|k: int| 0 <= k < sub@.len() implies exists|
                                            w: int,
                                        |
                                            0 <= w < t2 + 1 && (#[trigger] sub@[k])@ == (
                                            #[trigger] triples@[w])@ by {
                                            if k < pre.len() {
                                                let w0 = choose|w: int|
                                                    0 <= w < t2 && (#[trigger] pre[k])@ == (
                                                    #[trigger] triples@[w])@;
                                                assert(sub@[k]@ == triples@[w0]@);
                                            } else {
                                                assert(sub@[k]@ == triples@[t2 as int]@);
                                            }
                                        }
                                        assert forall|k: int, l: int|
                                            0 <= k < l < sub@.len() implies (#[trigger] sub@[k])@
                                            != (#[trigger] sub@[l])@ by {
                                            if l == sub@.len() - 1 {
                                                let w0 = choose|w: int|
                                                    0 <= w < t2 && (#[trigger] pre[k])@ == (
                                                    #[trigger] triples@[w])@;
                                                assert(triples@[w0]@ != triples@[t2 as int]@);
                                            }
                                        }
                                        lemma_views_push(pre, triples@[t2 as int]);
                                        assert(views_of(sub@) =~= preset.insert(
                                            triples@[t2 as int]@,
                                        ));
                                        assert(views_of(sub@) =~= matched_upto(
                                            triples@,
                                            matched@,
                                            t2 + 1,
                                        ));
                                    }
                                } else {
                                    proof {
                                        assert forall|k: int| 0 <= k < sub@.len() implies exists|
                                            w: int,
                                        |
                                            0 <= w < t2 + 1 && (#[trigger] sub@[k])@ == (
                                            #[trigger] triples@[w])@ by {
                                            let w0 = choose|w: int|
                                                0 <= w < t2 && (#[trigger] sub@[k])@ == (
                                                #[trigger] triples@[w])@;
                                        }
                                        assert(views_of(sub@) =~= matched_upto(
                                            triples@,
                                            matched@,
                                            t2 + 1,
                                        ));
                                    }
                                }
                                t2 = t2 + 1;
                            }
                            proof {
                                lemma_matched_upto_full(triples@, matched@);
                                assert(assoc_get(cfg_matches.entries@, key) == Some(*matched));
                                assert(exp == Set::new(
                                    |tr: Seq<char>|
                                        views_of(matched@).contains(tr) && views_of(
                                            triples@,
                                        ).contains(tr),
                                ));
                                assert(exp =~= views_of(sub@));
                            }
                            if sub.len() > 0 {
                                proof {
                                    assert forall|k: int| 0 <= k < sub@.len() implies views_of(
                                        triples@,
                                    ).contains((#[trigger] sub@[k])@) by {
                                        let w0 = choose|w: int|
                                            0 <= w < tn && (#[trigger] sub@[k])@ == (
                                            #[trigger] triples@[w])@;
                                    }
                                }
                                sel = Some(Selector::Subset(sub));
                            } else {
                                proof {
                                    assert forall|tr: Seq<char>| !exp.contains(tr) by {
                                        if views_of(sub@).contains(tr) {
                                            let i = choose|i: int|
                                                0 <= i < sub@.len() && (#[trigger] sub@[i])@ == tr;
                                        }
                                    }
                                }
                            }
                        },
                        None => {
                            proof {
                                assert(!views_of(triples@).contains(sel_str@)) by {
                                    if views_of(triples@).contains(sel_str@) {
                                        let w = choose|w: int|
                                            0 <= w < triples@.len() && (#[trigger] triples@[w])@
                                                == sel_str@;
                                    }
                                }
                                assert forall|u: int|
                                    0 <= u < e implies (#[trigger] odeps.entries@[u].0@)
                                    != sel_str@ by {
                                    if odeps.entries@[u].0@ == sel_str@ {
                                        assert(crate::strutil::lex_lt(
                                            odeps.entries@[u].0@,
                                            odeps.entries@[e as int].0@,
                                        ));
                                        crate::strutil::lemma_lex_lt_irrefl(sel_str@);
                                    }
                                }
                                crate::dict::lemma_assoc_get_at(
                                    odeps.entries@,
                                    sel_str@,
                                    e as int,
                                );
                            }
                            return Err(Error::UnknownPredicate(sel_str.clone()));
                        },
                    }
                }
            }
            let ghost pre_out = out@;
            match sel {
                Some(s) => {
                    let ghost gs2 = s;
                    let lc = labels.clone();
                    proof {
                        assert forall|i: int| 0 <= i < labels@.len() implies labels@[i]
                            == lc@[i] by {
                            assert(cloned::<String>(labels@[i], lc@[i]));
                        }
                        assert(labels@ =~= lc@);
                    }
                    out.push(DepGroup { selector: s, labels: lc });
                    proof {
                        assert(out@.len() == pre_out.len() + 1);
                        assert(out@[out@.len() - 1].selector == gs2);
                        assert(out@[out@.len() - 1].labels@ == odeps.entries@[e as int].1@);
                        assert(selector_triples(gs2, triples@) == exp);
                        assert forall|g: int| 0 <= g < out@.len() implies selector_ok(
                            (#[trigger] out@[g]).selector,
                            triples@,
                        ) && out@[g].labels@.len() > 0 by {
                            if g < pre_out.len() {
                                assert(out@[g] == pre_out[g]);
                            }
                        }
                        assert forall|g: int| 0 <= g < out@.len() implies exists|e2: int|
                            0 <= e2 < odeps.entries@.len() && (#[trigger] out@[g]).labels@ == (
                            #[trigger] odeps.entries@[e2]).1@ by {
                            if g < pre_out.len() {
                                assert(out@[g] == pre_out[g]);
                            } else {
                                assert(out@[g].labels@ == odeps.entries@[e as int].1@);
                            }
                        }
                        assert(entry_placed(out@, odeps.entries@[e as int], triples@, *cfg_matches))
                            by {
                            assert(out@[out@.len() - 1].labels@ == odeps.entries@[e as int].1@);
                            assert(selector_triples(out@[out@.len() - 1].selector, triples@)
                                == exp);
                        }
                        assert forall|e2: int|
                            0 <= e2 < e + 1 && (#[trigger] odeps.entries@[e2]).1@.len()
                                > 0 implies entry_placed(
                            out@,
                            odeps.entries@[e2],
                            triples@,
                            *cfg_matches,
                        ) by {
                            if e2 < e as int {
                                assert(entry_placed(
                                    pre_out,
                                    odeps.entries@[e2],
                                    triples@,
                                    *cfg_matches,
                                ));
                                if exists|tr: Seq<char>|
                                    expansion_of(
                                        odeps.entries@[e2].0@,
                                        triples@,
                                        *cfg_matches,
                                    ).contains(tr) {
                                    let g0 = choose|g: int|
                                        0 <= g < pre_out.len() && (#[trigger] pre_out[g]).labels@
                                            == odeps.entries@[e2].1@ && selector_triples(
                                            pre_out[g].selector,
                                            triples@,
                                        ) == expansion_of(
                                            odeps.entries@[e2].0@,
                                            triples@,
                                            *cfg_matches,
                                        );
                                    assert(out@[g0] == pre_out[g0]);
                                }
                            }
                        }
                    }
                },
                None => {
                    proof {
                        assert(entry_placed(out@, odeps.entries@[e as int], triples@, *cfg_matches))
                            by {
                            assert(forall|tr: Seq<char>| !exp.contains(tr));
                        }
                    }
                },
            }
        }
        e = e + 1;
    }
    Ok(out)
}

/// `label` sits in some group of `base` naming the same triples as `sel`.
pub open spec fn label_absorbed(base: Seq<DepGroup>, sel: Selector, label: String) -> bool {
    exists|g: int|
        0 <= g < base.len() && crate::platform::sel_same((#[trigger] base[g]).selector, sel)
            && base[g].labels@.contains(label)
}

/// One override group taken in: every label it carried sits in some group
/// naming the same triples.
pub open spec fn extra_absorbed(base: Seq<DepGroup>, eg: DepGroup) -> bool {
    forall|k: int|
        #![trigger eg.labels@[k]]
        0 <= k < eg.labels@.len() ==> label_absorbed(base, eg.selector, eg.labels@[k])
}

proof fn lemma_prefix_contains<A>(s1: Seq<A>, s2: Seq<A>, x: A)
    requires
        s1.is_prefix_of(s2),
        s1.contains(x),
    ensures
        s2.contains(x),
{
    let i = choose|i: int| 0 <= i < s1.len() && s1[i] == x;
    assert(s2[i] == s1[i]);
}

proof fn lemma_prefix_trans<A>(a: Seq<A>, b: Seq<A>, c: Seq<A>)
    requires
        a.is_prefix_of(b),
        b.is_prefix_of(c),
    ensures
        a.is_prefix_of(c),
{
    assert forall|i: int| 0 <= i < a.len() implies a[i] == c[i] by {
        assert(a[i] == b[i]);
        assert(b[i] == c[i]);
    }
    assert(a =~= c.subrange(0, a.len() as int));
}

proof fn lemma_sel_same_refl(s: Selector)
    ensures
        crate::platform::sel_same(s, s),
{
    assert forall|trs: Seq<String>|
        #![trigger selector_triples(s, trs)]
        selector_triples(s, trs) == selector_triples(s, trs) by {}
}

/// Joins one override group's labels onto the group at `gi`, which names the
/// same triples.
fn join_group(base: &mut Vec<DepGroup>, gi: usize, eg: DepGroup, gt: Ghost<Seq<String>>)
    requires
        groups_ok(old(base)@, gt@),
        gi < old(base)@.len(),
        crate::platform::sel_same(old(base)@[gi as int].selector, eg.selector),
    ensures
        groups_ok(final(base)@, gt@),
        final(base)@.len() == old(base)@.len(),
        forall|g: int|
            0 <= g < old(base)@.len() ==> (#[trigger] final(base)@[g]).selector == old(
                base,
            )@[g].selector && old(base)@[g].labels@.is_prefix_of(final(base)@[g].labels@),
        extra_absorbed(final(base)@, eg),
{
    let ghost pre_base = base@;
    let ghost eg_labels = eg.labels@;
    let mut g = base.remove(gi);
    let ghost gsel0 = g.selector;
    let ghost gpre = g.labels@;
    let mut ls = eg.labels;
    let n1 = ls.len();
    assert(eg_labels.len() <= usize::MAX);
    let mut lsdone: usize = 0;
    proof {
        assert(gpre.is_prefix_of(g.labels@)) by {
            assert(gpre =~= g.labels@.subrange(0, gpre.len() as int));
        }
        assert(ls@ =~= eg_labels.subrange(0, eg_labels.len() as int));
    }
    while ls.len() > 0
        invariant
            lsdone <= eg_labels.len(),
            eg_labels.len() <= usize::MAX,
            ls@ == eg_labels.subrange(lsdone as int, eg_labels.len() as int),
            g.labels@.len() >= gpre.len(),
            g.selector == gsel0,
            gpre.is_prefix_of(g.labels@),
            forall|k: int| 0 <= k < lsdone ==> g.labels@.contains(#[trigger] eg_labels[k]),
        decreases ls@.len(),
    {
        let ghost before = g.labels@;
        let l = ls.remove(0);
        proof {
            assert(l == eg_labels[lsdone as int]);
            assert(ls@ =~= eg_labels.subrange(lsdone + 1, eg_labels.len() as int));
        }
        g.labels.push(l);
        proof {
            assert(before.is_prefix_of(g.labels@)) by {
                assert(before =~= g.labels@.subrange(0, before.len() as int));
            }
            lemma_prefix_trans(gpre, before, g.labels@);
            assert(g.labels@[g.labels@.len() - 1] == eg_labels[lsdone as int]);
            assert forall|k: int| 0 <= k < lsdone + 1 implies g.labels@.contains(
                #[trigger] eg_labels[k],
            ) by {
                if k < lsdone {
                    let i = choose|i: int| 0 <= i < before.len() && before[i] == eg_labels[k];
                    assert(g.labels@[i] == eg_labels[k]);
                } else {
                    assert(g.labels@[g.labels@.len() - 1] == eg_labels[k]);
                }
            }
        }
        lsdone = lsdone + 1;
    }
    proof {
        assert(lsdone == eg_labels.len());
    }
    let ghost g2 = g;
    base.insert(gi, g);
    proof {
        assert(base@ =~= pre_base.update(gi as int, g2));
        assert(g2.selector == pre_base[gi as int].selector);
        assert(gpre == pre_base[gi as int].labels@);
        assert(g2.labels@.len() > 0) by {
            assert(gpre.len() > 0);
        }
        assert forall|gg: int| 0 <= gg < base@.len() implies selector_ok(
            (#[trigger] base@[gg]).selector,
            gt@,
        ) && base@[gg].labels@.len() > 0 by {
            if gg != gi as int {
                assert(base@[gg] == pre_base[gg]);
            }
        }
        assert forall|g0: int| 0 <= g0 < pre_base.len() implies (#[trigger] base@[g0]).selector
            == pre_base[g0].selector && pre_base[g0].labels@.is_prefix_of(base@[g0].labels@) by {
            if g0 == gi as int {
                assert(base@[g0] == g2);
            } else {
                assert(base@[g0] == pre_base[g0]);
                assert(pre_base[g0].labels@.is_prefix_of(base@[g0].labels@)) by {
                    assert(pre_base[g0].labels@ =~= base@[g0].labels@.subrange(
                        0,
                        pre_base[g0].labels@.len() as int,
                    ));
                }
            }
        }
        assert forall|k: int|
            #![trigger eg_labels[k]]
            0 <= k < eg_labels.len() implies label_absorbed(base@, eg.selector, eg_labels[k]) by {
            assert(base@[gi as int] == g2);
            assert(g2.labels@.contains(eg_labels[k]));
            assert(crate::platform::sel_same(g2.selector, eg.selector));
            assert(label_absorbed(base@, eg.selector, eg_labels[k]));
        }
        assert(extra_absorbed(base@, eg));
    }
}

/// Opens a new group at the end for one override group.
fn push_group(base: &mut Vec<DepGroup>, eg: DepGroup, gt: Ghost<Seq<String>>)
    requires
        groups_ok(old(base)@, gt@),
        selector_ok(eg.selector, gt@),
        eg.labels@.len() > 0,
    ensures
        groups_ok(final(base)@, gt@),
        final(base)@.len() == old(base)@.len() + 1,
        forall|g: int| 0 <= g < old(base)@.len() ==> (#[trigger] final(base)@[g]) == old(base)@[g],
        final(base)@[old(base)@.len() as int] == eg,
        extra_absorbed(final(base)@, eg),
{
    let ghost pre_base = base@;
    let ghost geg = eg;
    base.push(eg);
    proof {
        assert(base@[base@.len() - 1] == geg);
        assert forall|gg: int| 0 <= gg < base@.len() implies selector_ok(
            (#[trigger] base@[gg]).selector,
            gt@,
        ) && base@[gg].labels@.len() > 0 by {
            if gg < pre_base.len() {
                assert(base@[gg] == pre_base[gg]);
            }
        }
        lemma_sel_same_refl(geg.selector);
        assert forall|k: int|
            #![trigger geg.labels@[k]]
            0 <= k < geg.labels@.len() implies label_absorbed(
            base@,
            geg.selector,
            geg.labels@[k],
        ) by {
            assert(base@[base@.len() - 1].labels@.contains(geg.labels@[k]));
            assert(label_absorbed(base@, geg.selector, geg.labels@[k]));
        }
        assert(extra_absorbed(base@, geg));
    }
}

proof fn lemma_absorbed_preserved(mid: Seq<DepGroup>, cur: Seq<DepGroup>, eg: DepGroup)
    requires
        extra_absorbed(mid, eg),
        cur.len() >= mid.len(),
        forall|g: int|
            0 <= g < mid.len() ==> (#[trigger] cur[g]).selector == mid[g].selector
                && mid[g].labels@.is_prefix_of(cur[g].labels@),
    ensures
        extra_absorbed(cur, eg),
{
    assert forall|k: int|
        #![trigger eg.labels@[k]]
        0 <= k < eg.labels@.len() implies label_absorbed(cur, eg.selector, eg.labels@[k]) by {
        assert(label_absorbed(mid, eg.selector, eg.labels@[k]));
        let g0 = choose|g0: int|
            0 <= g0 < mid.len() && crate::platform::sel_same(
                (#[trigger] mid[g0]).selector,
                eg.selector,
            ) && mid[g0].labels@.contains(eg.labels@[k]);
        lemma_prefix_contains(mid[g0].labels@, cur[g0].labels@, eg.labels@[k]);
        assert(label_absorbed(cur, eg.selector, eg.labels@[k]));
    }
}

/// Appends the override-injected groups to the resolver-derived ones: a
/// group's labels join the first existing group with the same selector, or
/// open a new group at the end. The groups already there keep their selector
/// and their labels as a prefix; every injected label ends up in a group
/// naming the same triples; any new group carries one injected group's
/// selector and starts with its labels.
pub fn append_groups(base: &mut Vec<DepGroup>, extra: Vec<DepGroup>, gt: Ghost<Seq<String>>)
    requires
        groups_ok(old(base)@, gt@),
        groups_ok(extra@, gt@),
    ensures
        groups_ok(final(base)@, gt@),
        final(base)@.len() >= old(base)@.len(),
        forall|g: int|
            0 <= g < old(base)@.len() ==> (#[trigger] final(base)@[g]).selector == old(
                base,
            )@[g].selector && old(base)@[g].labels@.is_prefix_of(final(base)@[g].labels@),
        forall|e: int|
            0 <= e < extra@.len() ==> extra_absorbed(final(base)@, #[trigger] extra@[e]),
        forall|g: int|
            old(base)@.len() <= g < final(base)@.len() ==> exists|e: int|
                0 <= e < extra@.len() && (#[trigger] final(base)@[g]).selector
                    == extra@[e].selector && extra@[e].labels@.is_prefix_of(
                    final(base)@[g].labels@,
                ),
{
    let ghost orig = extra@;
    let mut rest = extra;
    let n0 = rest.len();
    assert(orig.len() <= usize::MAX);
    let mut done: usize = 0;
    while rest.len() > 0
        invariant
            done <= orig.len(),
            orig.len() <= usize::MAX,
            rest@ == orig.subrange(done as int, orig.len() as int),
            groups_ok(base@, gt@),
            groups_ok(orig, gt@),
            base@.len() >= old(base)@.len(),
            forall|g: int|
                0 <= g < old(base)@.len() ==> (#[trigger] base@[g]).selector == old(
                    base,
                )@[g].selector && old(base)@[g].labels@.is_prefix_of(base@[g].labels@),
            forall|e: int| 0 <= e < done ==> extra_absorbed(base@, #[trigger] orig[e]),
            forall|g: int|
                old(base)@.len() <= g < base@.len() ==> exists|e: int|
                    0 <= e < done && (#[trigger] base@[g]).selector == orig[e].selector
                        && orig[e].labels@.is_prefix_of(base@[g].labels@),
        decreases rest@.len(),
    {
        let eg = rest.remove(0);
        proof {
            assert(eg == orig[done as int]);
            assert(rest@ =~= orig.subrange(done + 1, orig.len() as int));
        }
        let ghost geg = eg;
        let bn = base.len();
        let mut gi: usize = 0;
        let mut found = false;
        loop
            invariant_except_break
                !found,
            invariant
                gi <= bn,
                bn == base@.len(),
                geg == eg,
            ensures
                bn == base@.len(),
                geg == eg,
                found ==> gi < bn && crate::platform::sel_same(
                    base@[gi as int].selector,
                    geg.selector,
                ),
                !found ==> gi == bn,
            decreases bn - gi,
        {
            if gi >= bn {
                break ;
            }
            if crate::platform::selectors_eq(&base[gi].selector, &eg.selector) {
                found = true;
                break ;
            }
            gi = gi + 1;
        }
        let ghost mid_base = base@;
        if found {
            join_group(base, gi, eg, gt);
        } else {
            proof {
                assert(selector_ok(geg.selector, gt@)) by {
                    assert(groups_ok(orig, gt@));
                    assert(selector_ok(orig[done as int].selector, gt@));
                }
            }
            push_group(base, eg, gt);
        }
        proof {
            assert forall|g: int| 0 <= g < old(base)@.len() implies (
            #[trigger] base@[g]).selector == old(base)@[g].selector && old(
                base,
            )@[g].labels@.is_prefix_of(base@[g].labels@) by {
                assert(base@[g].selector == mid_base[g].selector);
                assert(mid_base[g].labels@.is_prefix_of(base@[g].labels@));
                lemma_prefix_trans(old(base)@[g].labels@, mid_base[g].labels@, base@[g].labels@);
            }
            assert forall|e: int| 0 <= e < done + 1 implies extra_absorbed(
                base@,
                #[trigger] orig[e],
            ) by {
                if e < done as int {
                    assert(extra_absorbed(mid_base, orig[e]));
                    lemma_absorbed_preserved(mid_base, base@, orig[e]);
                } else {
                    assert(extra_absorbed(base@, geg));
                }
            }
            assert forall|g: int|
                old(base)@.len() <= g < base@.len() implies exists|e: int|
                0 <= e < done + 1 && (#[trigger] base@[g]).selector == orig[e].selector
                    && orig[e].labels@.is_prefix_of(base@[g].labels@) by {
                if g < mid_base.len() {
                    let e0 = choose|e: int|
                        0 <= e < done && (#[trigger] mid_base[g]).selector == orig[e].selector
                            && orig[e].labels@.is_prefix_of(mid_base[g].labels@);
                    assert(base@[g].selector == mid_base[g].selector);
                    lemma_prefix_trans(orig[e0].labels@, mid_base[g].labels@, base@[g].labels@);
                } else {
                    assert(base@[g] == geg);
                    assert(orig[done as int].labels@.is_prefix_of(base@[g].labels@)) by {
                        assert(orig[done as int].labels@ =~= base@[g].labels@.subrange(
                            0,
                            orig[done as int].labels@.len() as int,
                        ));
                    }
                }
            }
        }
        done = done + 1;
    }
    proof {
        assert(done == orig.len());
    }
}

/// Comment-stub targets in ascending name order.
pub open spec fn pairs_sorted(s: Seq<(String, String)>) -> bool {
    forall|i: int, j: int|
        0 <= i < j < s.len() ==> lex_le((#[trigger] s[i]).0@, (#[trigger] s[j]).0@)
}

fn insert_pair_sorted(out: &mut Vec<(String, String)>, x: (String, String))
    requires
        pairs_sorted(old(out)@),
    ensures
        pairs_sorted(final(out)@),
        final(out)@.to_multiset() == old(out)@.to_multiset().insert(x),
{
    let mut pos: usize = 0;
    let n = out.len();
    let ghost gx = x;
    loop
        invariant
            pos <= n,
            n == out@.len(),
            pairs_sorted(out@),
            gx == x,
            forall|j: int| 0 <= j < pos ==> lex_le((#[trigger] out@[j]).0@, gx.0@),
        ensures
            pos <= n,
            n == out@.len(),
            forall|j: int| 0 <= j < pos ==> lex_le((#[trigger] out@[j]).0@, gx.0@),
            pos < n ==> lex_le(gx.0@, out@[pos as int].0@),
        decreases n - pos,
    {
        if pos >= n {
            break ;
        }
        if !crate::strutil::str_le(&out[pos].0, x.0.as_str()) {
            proof {
                lemma_lex_lt_total(out@[pos as int].0@, gx.0@);
            }
            break ;
        }
        pos = pos + 1;
    }
    let ghost old_seq = out@;
    out.insert(pos, x);
    proof {
        assert(out@ =~= old_seq.subrange(0, pos as int).push(gx) + old_seq.subrange(
            pos as int,
            old_seq.len() as int,
        ));
        crate::strutil::lemma_insert_multiset(old_seq, gx, pos as int);
        assert forall|i: int, j: int| 0 <= i < j < out@.len() implies lex_le(
            (#[trigger] out@[i]).0@,
            (#[trigger] out@[j]).0@,
        ) by {
            let xi = out@[i].0@;
            let xj = out@[j].0@;
            if i < pos && j == pos {
                assert(lex_le(xi, gx.0@));
            } else if i == pos && j > pos {
                assert(out@[j] == old_seq[j - 1]);
                if pos < old_seq.len() && j - 1 > pos {
                    assert(lex_le(old_seq[pos as int].0@, xj));
                    if lex_lt(gx.0@, old_seq[pos as int].0@) && lex_lt(
                        old_seq[pos as int].0@,
                        xj,
                    ) {
                        lemma_lex_lt_trans(gx.0@, old_seq[pos as int].0@, xj);
                    }
                }
            } else if i < pos && j > pos {
                assert(out@[i] == old_seq[i] && out@[j] == old_seq[j - 1]);
                if i == j - 1 {
                    assert(lex_le(xi, xj));
                }
            } else if i > pos && j > pos {
                assert(out@[i] == old_seq[i - 1] && out@[j] == old_seq[j - 1]);
            } else if i < pos && j < pos {
                assert(out@[i] == old_seq[i] && out@[j] == old_seq[j]);
            }
        }
    }
}

/// Sorts the omitted-target stubs by target name, keeping exactly the
/// original entries.
fn sort_pairs(v: &mut Vec<(String, String)>)
    ensures
        pairs_sorted(final(v)@),
        final(v)@.to_multiset() == old(v)@.to_multiset(),
{
    let ghost orig = v@;
    let n0 = v.len();
    assert(orig.len() <= usize::MAX);
    let mut out: Vec<(String, String)> = Vec::new();
    let mut k: usize = 0;
    proof {
        broadcast use vstd::seq_lib::group_to_multiset_ensures;

        assert(v@.subrange(0, 0) =~= Seq::<(String, String)>::empty());
        assert(out@.to_multiset() =~= v@.subrange(0, 0).to_multiset());
    }
    while v.len() > 0
        invariant
            orig == old(v)@,
            k <= orig.len(),
            orig.len() <= usize::MAX,
            v@ == orig.subrange(k as int, orig.len() as int),
            pairs_sorted(out@),
            out@.to_multiset() == orig.subrange(0, k as int).to_multiset(),
        decreases v@.len(),
    {
        let x = v.remove(0);
        assert(x == orig[k as int]);
        insert_pair_sorted(&mut out, x);
        proof {
            broadcast use vstd::seq_lib::group_to_multiset_ensures;

            assert(orig.subrange(0, k + 1) =~= orig.subrange(0, k as int).push(orig[k as int]));
            assert(orig.subrange(0, k + 1).to_multiset() =~= orig.subrange(
                0,
                k as int,
            ).to_multiset().insert(orig[k as int]));
            assert(v@ =~= orig.subrange(k + 1, orig.len() as int));
        }
        k = k + 1;
    }
    proof {
        assert(orig.subrange(0, k as int) =~= orig);
    }
    *v = out;
}

/// A value-preserving copy of a string-to-string map.
fn copy_env(d: &Dict<String>) -> (r: Dict<String>)
    ensures
        r.entries@ == d.entries@,
{
    let n = d.entries.len();
    let mut out: Vec<(String, String)> = Vec::new();
    let mut i: usize = 0;
    while i < n
        invariant
            i <= n,
            n == d.entries@.len(),
            out@.len() == i,
            forall|j: int| 0 <= j < i ==> (#[trigger] out@[j]) == d.entries@[j],
        decreases n - i,
    {
        let k = d.entries[i].0.clone();
        let v = d.entries[i].1.clone();
        out.push((k, v));
        proof {
            assert(out@[i as int] == (d.entries@[i as int].0, d.entries@[i as int].1));
            assert((d.entries@[i as int].0, d.entries@[i as int].1) == d.entries@[i as int]);
        }
        i = i + 1;
    }
    proof {
        assert(out@ =~= d.entries@);
    }
    Dict { entries: out }
}

/// A label of a wanted edge occurs somewhere in the crate's per-triple edge
/// table.
pub open spec fn edge_occurs(p: ResolvedPackage, l: Seq<char>, build: bool) -> bool {
    exists|t: int|
        0 <= t < p.deps_by_triple@.len() && edge_label_set(
            (#[trigger] p.deps_by_triple@[t]).1@,
            build,
        ).contains(l)
}

/// The triples on which a wanted edge with label `l` is active.
pub open spec fn edge_active_on(p: ResolvedPackage, l: Seq<char>, build: bool) -> Set<Seq<char>> {
    Set::new(
        |tr: Seq<char>|
            exists|t: int|
                0 <= t < p.deps_by_triple@.len() && (#[trigger] p.deps_by_triple@[t]).0@ == tr
                    && edge_label_set(p.deps_by_triple@[t].1@, build).contains(l),
    )
}

/// The edge label `l` sits in a group whose selector names exactly the
/// triples the edge is active on.
pub open spec fn edge_label_grouped(
    gs: Seq<DepGroup>,
    p: ResolvedPackage,
    l: Seq<char>,
    triples: Seq<String>,
    build: bool,
) -> bool {
    exists|g: int|
        0 <= g < gs.len() && views_of((#[trigger] gs[g]).labels@).contains(l) && selector_triples(
            gs[g].selector,
            triples,
        ) == edge_active_on(p, l, build)
}

/// Every wanted edge label sits in a group whose selector names exactly the
/// triples the edge is active on.
pub open spec fn resolver_edges_grouped(
    gs: Seq<DepGroup>,
    p: ResolvedPackage,
    triples: Seq<String>,
    build: bool,
) -> bool {
    forall|l: Seq<char>|
        #![trigger edge_occurs(p, l, build)]
        edge_occurs(p, l, build) ==> edge_label_grouped(gs, p, l, triples, build)
}

/// `label` sits in some group whose selector names exactly `expn`.
pub open spec fn label_expanded(
    gs: Seq<DepGroup>,
    expn: Set<Seq<char>>,
    label: String,
    triples: Seq<String>,
) -> bool {
    exists|g: int|
        0 <= g < gs.len() && selector_triples((#[trigger] gs[g]).selector, triples) == expn
            && gs[g].labels@.contains(label)
}

/// One override entry carried to the end: its selector is recognized and,
/// where its expansion names any triple, each of its labels sits in a group
/// whose selector names exactly that expansion.
pub open spec fn entry_carried(
    gs: Seq<DepGroup>,
    entry: (String, Vec<String>),
    triples: Seq<String>,
    cfg_matches: Dict<Vec<String>>,
) -> bool {
    &&& !pred_unknown(entry.0@, triples, cfg_matches)
    &&& ((exists|tr: Seq<char>| expansion_of(entry.0@, triples, cfg_matches).contains(tr))
        ==> forall|k: int|
        #![trigger entry.1@[k]]
        0 <= k < entry.1@.len() ==> label_expanded(
            gs,
            expansion_of(entry.0@, triples, cfg_matches),
            entry.1@[k],
            triples,
        ))
}

/// Every used entry of one override dependency map is carried.
pub open spec fn override_map_placed(
    gs: Seq<DepGroup>,
    odeps: Dict<Vec<String>>,
    triples: Seq<String>,
    cfg_matches: Dict<Vec<String>>,
) -> bool {
    forall|e: int|
        0 <= e < odeps.entries@.len() && (#[trigger] odeps.entries@[e]).1@.len() > 0
            ==> entry_carried(gs, odeps.entries@[e], triples, cfg_matches)
}

/// Carries placement through joining: what the expansion placed in the
/// injected groups stays placed once those groups are absorbed.
proof fn lemma_override_placed(
    og: Seq<DepGroup>,
    final_gs: Seq<DepGroup>,
    odeps: Dict<Vec<String>>,
    triples: Seq<String>,
    cfg_matches: Dict<Vec<String>>,
)
    requires
        forall|e: int|
            0 <= e < odeps.entries@.len() && (#[trigger] odeps.entries@[e]).1@.len() > 0
                ==> entry_placed(og, odeps.entries@[e], triples, cfg_matches),
        forall|e2: int| 0 <= e2 < og.len() ==> extra_absorbed(final_gs, #[trigger] og[e2]),
    ensures
        override_map_placed(final_gs, odeps, triples, cfg_matches),
{
    assert forall|e: int|
        0 <= e < odeps.entries@.len() && (#[trigger] odeps.entries@[e]).1@.len()
            > 0 implies entry_carried(final_gs, odeps.entries@[e], triples, cfg_matches) by {
        assert(entry_placed(og, odeps.entries@[e], triples, cfg_matches));
        if exists|tr: Seq<char>|
            expansion_of(odeps.entries@[e].0@, triples, cfg_matches).contains(tr) {
            let ge = choose|g: int|
                0 <= g < og.len() && (#[trigger] og[g]).labels@ == odeps.entries@[e].1@
                    && selector_triples(og[g].selector, triples) == expansion_of(
                    odeps.entries@[e].0@,
                    triples,
                    cfg_matches,
                );
            assert(extra_absorbed(final_gs, og[ge]));
            assert forall|k: int|
                #![trigger odeps.entries@[e].1@[k]]
                0 <= k < odeps.entries@[e].1@.len() implies label_expanded(
                final_gs,
                expansion_of(odeps.entries@[e].0@, triples, cfg_matches),
                odeps.entries@[e].1@[k],
                triples,
            ) by {
                assert(og[ge].labels@[k] == odeps.entries@[e].1@[k]);
                assert(label_absorbed(final_gs, og[ge].selector, og[ge].labels@[k]));
                let g0 = choose|g0: int|
                    0 <= g0 < final_gs.len() && crate::platform::sel_same(
                        (#[trigger] final_gs[g0]).selector,
                        og[ge].selector,
                    ) && final_gs[g0].labels@.contains(og[ge].labels@[k]);
                assert(selector_triples(final_gs[g0].selector, triples) == selector_triples(
                    og[ge].selector,
                    triples,
                ));
                assert(label_expanded(
                    final_gs,
                    expansion_of(odeps.entries@[e].0@, triples, cfg_matches),
                    odeps.entries@[e].1@[k],
                    triples,
                ));
            }
            assert(entry_carried(final_gs, odeps.entries@[e], triples, cfg_matches));
        } else {
            assert(entry_carried(final_gs, odeps.entries@[e], triples, cfg_matches));
        }
    }
}

/// Carries the unified groups through joining: a group whose labels are kept
/// as a prefix under the same selector still carries every edge label.
proof fn lemma_resolver_grouped(
    rg: Seq<DepGroup>,
    final_gs: Seq<DepGroup>,
    p: ResolvedPackage,
    triples: Seq<String>,
    lists: Seq<Vec<String>>,
    build: bool,
)
    requires
        deps_aligned(p, triples),
        lists.len() == triples.len(),
        forall|t: int|
            0 <= t < lists.len() ==> views_of((#[trigger] lists[t])@) == edge_label_set(
                p.deps_by_triple@[t].1@,
                build,
            ),
        crate::platform::groups_wf(rg, triples, lists),
        forall|x: Seq<char>| crate::platform::occurs(lists, x) ==> crate::platform::grouped(rg, x),
        final_gs.len() >= rg.len(),
        forall|g: int|
            0 <= g < rg.len() ==> (#[trigger] final_gs[g]).selector == rg[g].selector
                && rg[g].labels@.is_prefix_of(final_gs[g].labels@),
    ensures
        resolver_edges_grouped(final_gs, p, triples, build),
{
    assert forall|l: Seq<char>| #[trigger] edge_occurs(p, l, build) implies edge_label_grouped(
        final_gs,
        p,
        l,
        triples,
        build,
    ) by {
        let t0 = choose|t: int|
            0 <= t < p.deps_by_triple@.len() && edge_label_set(
                (#[trigger] p.deps_by_triple@[t]).1@,
                build,
            ).contains(l);
        assert(views_of(lists[t0]@).contains(l));
        assert(crate::platform::occurs(lists, l)) by {
            assert(0 <= t0 < lists.len() && views_of(lists[t0]@).contains(l));
        }
        assert(crate::platform::grouped(rg, l));
        let g0 = choose|g: int|
            0 <= g < rg.len() && views_of((#[trigger] rg[g]).labels@).contains(l);
        assert(crate::platform::group_wf_one(rg[g0], triples, lists));
        assert(selector_triples(rg[g0].selector, triples) == crate::platform::active_of(
            triples,
            lists,
            l,
        ));
        assert(crate::platform::active_of(triples, lists, l) =~= edge_active_on(p, l, build)) by {
            assert forall|tr: Seq<char>|
                crate::platform::active_of(triples, lists, l).contains(tr) == edge_active_on(
                    p,
                    l,
                    build,
                ).contains(tr) by {
                if crate::platform::active_of(triples, lists, l).contains(tr) {
                    let t = choose|t: int|
                        0 <= t < triples.len() && (#[trigger] triples[t])@ == tr && views_of(
                            lists[t]@,
                        ).contains(l);
                    assert(p.deps_by_triple@[t].0@ == tr);
                    assert(edge_label_set(p.deps_by_triple@[t].1@, build).contains(l));
                    assert(edge_active_on(p, l, build).contains(tr));
                }
                if edge_active_on(p, l, build).contains(tr) {
                    let t = choose|t: int|
                        0 <= t < p.deps_by_triple@.len() && (#[trigger] p.deps_by_triple@[t]).0@
                            == tr && edge_label_set(p.deps_by_triple@[t].1@, build).contains(l);
                    assert(triples[t]@ == tr);
                    assert(views_of(lists[t]@).contains(l));
                    assert(crate::platform::active_of(triples, lists, l).contains(tr));
                }
            }
        }
        assert(final_gs[g0].selector == rg[g0].selector);
        assert(views_of(final_gs[g0].labels@).contains(l)) by {
            let k = choose|k: int|
                0 <= k < rg[g0].labels@.len() && (#[trigger] rg[g0].labels@[k])@ == l;
            assert(final_gs[g0].labels@[k] == rg[g0].labels@[k]);
        }
        assert(edge_label_grouped(final_gs, p, l, triples, build));
    }
}

/// Every locally renamed edge's label has an entry in the alias table.
pub open spec fn aliases_complete(d: Dict<String>, p: ResolvedPackage) -> bool {
    forall|t: int, e: int|
        #![trigger p.deps_by_triple@[t].1@[e]]
        0 <= t < p.deps_by_triple@.len() && 0 <= e < p.deps_by_triple@[t].1@.len()
            && p.deps_by_triple@[t].1@[e].alias is Some ==> assoc_get(
            d.entries@,
            crate_label_spec(
                p.deps_by_triple@[t].1@[e].name@,
                p.deps_by_triple@[t].1@[e].version@,
            ),
        ) is Some
}

/// The prefix of that statement covered so far while scanning edges.
pub open spec fn aliases_complete_upto(d: Dict<String>, p: ResolvedPackage, tm: int, em: int) -> bool {
    forall|t: int, e: int|
        #![trigger p.deps_by_triple@[t].1@[e]]
        0 <= t < p.deps_by_triple@.len() && 0 <= e < p.deps_by_triple@[t].1@.len() && (t < tm || (t
            == tm && e < em)) && p.deps_by_triple@[t].1@[e].alias is Some ==> assoc_get(
            d.entries@,
            crate_label_spec(
                p.deps_by_triple@[t].1@[e].name@,
                p.deps_by_triple@[t].1@[e].version@,
            ),
        ) is Some
}

/// The override configured for a crate name, if any.
pub open spec fn override_for(
    ovr: Seq<(String, ConsolidatorOverride)>,
    name: Seq<char>,
) -> Option<ConsolidatorOverride> {
    assoc_get(ovr, name)
}

/// The features the override removes for this crate name.
pub open spec fn removed_set(ovr: Seq<(String, ConsolidatorOverride)>, name: Seq<char>) -> Set<
    Seq<char>,
> {
    match override_for(ovr, name) {
        Some(o) => views_of(o.features_to_remove@),
        None => Set::empty(),
    }
}

/// `key` is the label of an edge of `p` that is locally renamed to `val`.
pub open spec fn alias_pair(p: ResolvedPackage, key: Seq<char>, val: Seq<char>) -> bool {
    exists|t: int, e: int|
        0 <= t < p.deps_by_triple@.len() && 0 <= e < (#[trigger] p.deps_by_triple@[t]).1@.len()
            && crate_label_spec(
            (#[trigger] p.deps_by_triple@[t].1@[e]).name@,
            p.deps_by_triple@[t].1@[e].version@,
        ) == key && (match p.deps_by_triple@[t].1@[e].alias {
            Some(a) => a@ == val,
            None => false,
        })
}

/// One consolidated crate: identity and source as resolved, the main kind,
/// the features after override removal, the selector-grouped dependencies of
/// each category, the alias table, the override environments, and the
/// omitted-target stubs.
pub struct CrateSpec {
    pub name: String,
    pub version: String,
    pub kind: TargetKind,
    pub has_build_script: bool,
    pub edition: String,
    pub license: String,
    pub links: Option<String>,
    pub source: PackageSource,
    pub targets: Vec<BuildTarget>,
    pub features: Vec<String>,
    pub deps: Vec<DepGroup>,
    pub build_deps: Vec<DepGroup>,
    pub data_deps: Vec<DepGroup>,
    pub build_data_deps: Vec<DepGroup>,
    pub aliases: Dict<String>,
    pub rustc_env: Dict<String>,
    pub build_script_env: Dict<String>,
    pub unsupported_targets: Vec<(String, String)>,
}

/// What consolidation guarantees of one crate against its resolved
/// counterpart.
pub open spec fn crate_spec_ok(
    cs: CrateSpec,
    p: ResolvedPackage,
    triples: Seq<String>,
    ovr: Seq<(String, ConsolidatorOverride)>,
    cfg_matches: Dict<Vec<String>>,
) -> bool {
    &&& cs.name == p.name
    &&& cs.version == p.version
    &&& cs.edition == p.edition
    &&& cs.license == p.license
    &&& cs.links == p.links
    &&& cs.source == p.source
    &&& cs.targets@ == p.targets@
    &&& cs.has_build_script == has_build_script_target(p)
    &&& cs.kind == spec_main_kind(p)
    &&& strings_sorted_unique(cs.features@)
    &&& views_of(cs.features@) == all_features(p).difference(removed_set(ovr, p.name@))
    &&& cs.rustc_env.entries@ == (if override_for(ovr, p.name@) is Some {
        override_for(ovr, p.name@)->0.extra_rust_env_vars.entries@
    } else {
        Seq::<(String, String)>::empty()
    })
    &&& cs.build_script_env.entries@ == (if override_for(ovr, p.name@) is Some {
        override_for(ovr, p.name@)->0.extra_build_script_env_vars.entries@
    } else {
        Seq::<(String, String)>::empty()
    })
    &&& groups_ok(cs.deps@, triples)
    &&& groups_ok(cs.build_deps@, triples)
    &&& groups_ok(cs.data_deps@, triples)
    &&& groups_ok(cs.build_data_deps@, triples)
    &&& resolver_edges_grouped(cs.deps@, p, triples, false)
    &&& resolver_edges_grouped(cs.build_deps@, p, triples, true)
    &&& (override_for(ovr, p.name@) is Some ==> override_map_placed(
        cs.deps@,
        override_for(ovr, p.name@)->0.extra_bazel_deps,
        triples,
        cfg_matches,
    ) && override_map_placed(
        cs.data_deps@,
        override_for(ovr, p.name@)->0.extra_bazel_data_deps,
        triples,
        cfg_matches,
    ) && override_map_placed(
        cs.build_deps@,
        override_for(ovr, p.name@)->0.extra_build_script_bazel_deps,
        triples,
        cfg_matches,
    ) && override_map_placed(
        cs.build_data_deps@,
        override_for(ovr, p.name@)->0.extra_build_script_bazel_data_deps,
        triples,
        cfg_matches,
    ))
    &&& cs.aliases.wf()
    &&& aliases_complete(cs.aliases, p)
    &&& forall|i: int|
        0 <= i < cs.aliases.entries@.len() ==> alias_pair(
            p,
            (#[trigger] cs.aliases.entries@[i]).0@,
            cs.aliases.entries@[i].1@,
        )
    &&& pairs_sorted(cs.unsupported_targets@)
    &&& cs.unsupported_targets@.to_multiset() == p.unsupported_targets@.to_multiset()
}

/// The consolidated model the renderer consumes: the digest for the header,
/// the crates in graph order, the canonical target-name table, and the
/// label-to-crates map.
pub struct ConsolidatedModel {
    pub digest: String,
    pub render_config: RenderConfig,
    pub target_triples: Vec<String>,
    pub crates: Vec<CrateSpec>,
    pub target_names: Vec<(String, String)>,
    /// The chosen crate names whose canonical crate is a proc-macro.
    pub proc_macro_names: Vec<String>,
    pub label_to_crates: Dict<Vec<String>>,
}

/// The crate of this (name, version) pair is a proc-macro.
pub open spec fn is_pm_crate(crates: Seq<CrateSpec>, name: Seq<char>, ver: Seq<char>) -> bool {
    exists|i: int|
        0 <= i < crates.len() && (#[trigger] crates[i]).name@ == name && crates[i].version@ == ver
            && crates[i].kind == TargetKind::ProcMacro
}

/// The chosen names whose canonical crate is a proc-macro, in map order.
pub open spec fn pm_names_of(chosen: Seq<(String, String)>, crates: Seq<CrateSpec>) -> Seq<String>
    decreases chosen.len(),
{
    if chosen.len() == 0 {
        Seq::empty()
    } else {
        pm_names_of(chosen.drop_last(), crates) + (if is_pm_crate(
            crates,
            chosen.last().0@,
            chosen.last().1@,
        ) {
            seq![chosen.last().0]
        } else {
            Seq::<String>::empty()
        })
    }
}

/// Whether the crate under this (name, version) pair is a proc-macro.
fn crate_is_pm(crates: &Vec<CrateSpec>, name: &str, ver: &str) -> (r: bool)
    ensures
        r == is_pm_crate(crates@, name@, ver@),
{
    let n = crates.len();
    let mut i: usize = 0;
    while i < n
        invariant
            i <= n,
            n == crates@.len(),
            forall|j: int|
                0 <= j < i ==> !((#[trigger] crates@[j]).name@ == name@ && crates@[j].version@
                    == ver@ && crates@[j].kind == TargetKind::ProcMacro),
        decreases n - i,
    {
        if crate::strutil::str_eq(crates[i].name.as_str(), name) && crate::strutil::str_eq(
            crates[i].version.as_str(),
            ver,
        ) {
            match crates[i].kind {
                TargetKind::ProcMacro => {
                    return true;
                },
                _ => {},
            }
        }
        i = i + 1;
    }
    false
}

/// The alias table of one crate: each locally renamed edge's label mapped to
/// its local name; on colliding labels the first mapping stands.
fn collect_aliases(p: &ResolvedPackage, gp: Ghost<ResolvedPackage>) -> (r: Dict<String>)
    requires
        gp@ == *p,
    ensures
        r.wf(),
        forall|i: int|
            0 <= i < r.entries@.len() ==> alias_pair(
                gp@,
                (#[trigger] r.entries@[i]).0@,
                r.entries@[i].1@,
            ),
        aliases_complete(r, gp@),
{
    let tn = p.deps_by_triple.len();
    let mut d: Dict<String> = Dict::new();
    let mut t: usize = 0;
    proof {
        assert(aliases_complete_upto(d, gp@, 0, 0));
    }
    while t < tn
        invariant
            t <= tn,
            gp@ == *p,
            tn == p.deps_by_triple@.len(),
            d.wf(),
            forall|i: int|
                0 <= i < d.entries@.len() ==> alias_pair(
                    gp@,
                    (#[trigger] d.entries@[i]).0@,
                    d.entries@[i].1@,
                ),
            aliases_complete_upto(d, gp@, t as int, 0),
        decreases tn - t,
    {
        let en = p.deps_by_triple[t].1.len();
        let mut e: usize = 0;
        proof {
            assert(aliases_complete_upto(d, gp@, t as int, 0));
        }
        while e < en
            invariant
                t < tn,
                e <= en,
                gp@ == *p,
                tn == p.deps_by_triple@.len(),
                en == p.deps_by_triple@[t as int].1@.len(),
                d.wf(),
                forall|i: int|
                    0 <= i < d.entries@.len() ==> alias_pair(
                        gp@,
                        (#[trigger] d.entries@[i]).0@,
                        d.entries@[i].1@,
                    ),
                aliases_complete_upto(d, gp@, t as int, e as int),
            decreases en - e,
        {
            let edge = &p.deps_by_triple[t].1[e];
            let has_alias = match &edge.alias {
                Some(_) => true,
                None => false,
            };
            if has_alias {
                let a = match &edge.alias {
                    Some(a) => a.clone(),
                    None => String::new(),
                };
                let label = crate_to_label(edge.name.as_str(), edge.version.as_str());
                let ghost glabel = label@;
                let ghost ga = a@;
                let ghost pre = d;
                let res = d.insert(label, a);
                proof {
                    broadcast use vstd::seq_lib::group_to_multiset_ensures;

                    assert(alias_pair(gp@, glabel, ga)) by {
                        assert(crate_label_spec(
                            gp@.deps_by_triple@[t as int].1@[e as int].name@,
                            gp@.deps_by_triple@[t as int].1@[e as int].version@,
                        ) == glabel);
                    }
                    match res {
                        Ok(_) => {
                            assert forall|i: int| 0 <= i < d.entries@.len() implies alias_pair(
                                gp@,
                                (#[trigger] d.entries@[i]).0@,
                                d.entries@[i].1@,
                            ) by {
                                let ent = d.entries@[i];
                                assert(d.entries@.contains(ent));
                                assert(d.entries@.to_multiset().contains(ent));
                                if pre.entries@.to_multiset().contains(ent) {
                                    assert(pre.entries@.contains(ent));
                                    let i0 = choose|i0: int|
                                        0 <= i0 < pre.entries@.len() && pre.entries@[i0] == ent;
                                    assert(alias_pair(gp@, pre.entries@[i0].0@, pre.entries@[i0].1@));
                                } else {
                                    assert(ent.0@ == glabel && ent.1@ == ga);
                                }
                            }
                            assert(assoc_get(d.entries@, glabel) is Some);
                            assert forall|t2: int, e2: int|
                                #![trigger gp@.deps_by_triple@[t2].1@[e2]]
                                0 <= t2 < gp@.deps_by_triple@.len() && 0 <= e2
                                    < gp@.deps_by_triple@[t2].1@.len() && (t2 < t as int || (t2
                                    == t as int && e2 < e + 1))
                                    && gp@.deps_by_triple@[t2].1@[e2].alias is Some implies
                                assoc_get(
                                d.entries@,
                                crate_label_spec(
                                    gp@.deps_by_triple@[t2].1@[e2].name@,
                                    gp@.deps_by_triple@[t2].1@[e2].version@,
                                ),
                            ) is Some by {
                                if t2 < t as int || e2 < e as int {
                                    assert(assoc_get(
                                        pre.entries@,
                                        crate_label_spec(
                                            gp@.deps_by_triple@[t2].1@[e2].name@,
                                            gp@.deps_by_triple@[t2].1@[e2].version@,
                                        ),
                                    ) is Some);
                                    let k0 = crate_label_spec(
                                        gp@.deps_by_triple@[t2].1@[e2].name@,
                                        gp@.deps_by_triple@[t2].1@[e2].version@,
                                    );
                                    if k0 != glabel {
                                        assert(d.spec_get(k0) == pre.spec_get(k0));
                                    }
                                } else {
                                    assert(crate_label_spec(
                                        gp@.deps_by_triple@[t2].1@[e2].name@,
                                        gp@.deps_by_triple@[t2].1@[e2].version@,
                                    ) == glabel);
                                }
                            }
                            assert(aliases_complete_upto(d, gp@, t as int, e + 1));
                        },
                        Err(_) => {
                            proof_alias_err(pre, d, glabel);
                            assert forall|t2: int, e2: int|
                                #![trigger gp@.deps_by_triple@[t2].1@[e2]]
                                0 <= t2 < gp@.deps_by_triple@.len() && 0 <= e2
                                    < gp@.deps_by_triple@[t2].1@.len() && (t2 < t as int || (t2
                                    == t as int && e2 < e + 1))
                                    && gp@.deps_by_triple@[t2].1@[e2].alias is Some implies
                                assoc_get(
                                d.entries@,
                                crate_label_spec(
                                    gp@.deps_by_triple@[t2].1@[e2].name@,
                                    gp@.deps_by_triple@[t2].1@[e2].version@,
                                ),
                            ) is Some by {
                                if t2 == t as int && e2 == e as int {
                                    assert(crate_label_spec(
                                        gp@.deps_by_triple@[t2].1@[e2].name@,
                                        gp@.deps_by_triple@[t2].1@[e2].version@,
                                    ) == glabel);
                                }
                            }
                            assert(aliases_complete_upto(d, gp@, t as int, e + 1));
                        },
                    }
                }
            } else {
                proof {
                    assert forall|t2: int, e2: int|
                        #![trigger gp@.deps_by_triple@[t2].1@[e2]]
                        0 <= t2 < gp@.deps_by_triple@.len() && 0 <= e2
                            < gp@.deps_by_triple@[t2].1@.len() && (t2 < t as int || (t2 == t as int
                            && e2 < e + 1)) && gp@.deps_by_triple@[t2].1@[e2].alias is Some implies
                        assoc_get(
                        d.entries@,
                        crate_label_spec(
                            gp@.deps_by_triple@[t2].1@[e2].name@,
                            gp@.deps_by_triple@[t2].1@[e2].version@,
                        ),
                    ) is Some by {}
                    assert(aliases_complete_upto(d, gp@, t as int, e + 1));
                }
            }
            e = e + 1;
        }
        proof {
            assert forall|t2: int, e2: int|
                #![trigger gp@.deps_by_triple@[t2].1@[e2]]
                0 <= t2 < gp@.deps_by_triple@.len() && 0 <= e2 < gp@.deps_by_triple@[t2].1@.len()
                    && (t2 < t + 1 || (t2 == t + 1 && e2 < 0))
                    && gp@.deps_by_triple@[t2].1@[e2].alias is Some implies assoc_get(
                d.entries@,
                crate_label_spec(
                    gp@.deps_by_triple@[t2].1@[e2].name@,
                    gp@.deps_by_triple@[t2].1@[e2].version@,
                ),
            ) is Some by {
                if t2 == t as int {
                    assert(e2 < en);
                }
            }
            assert(aliases_complete_upto(d, gp@, t + 1, 0));
        }
        t = t + 1;
    }
    proof {
        assert forall|t2: int, e2: int|
            #![trigger gp@.deps_by_triple@[t2].1@[e2]]
            0 <= t2 < gp@.deps_by_triple@.len() && 0 <= e2 < gp@.deps_by_triple@[t2].1@.len()
                && gp@.deps_by_triple@[t2].1@[e2].alias is Some implies assoc_get(
            d.entries@,
            crate_label_spec(
                gp@.deps_by_triple@[t2].1@[e2].name@,
                gp@.deps_by_triple@[t2].1@[e2].version@,
            ),
        ) is Some by {
            assert(t2 < tn);
        }
        assert(aliases_complete(d, gp@));
    }
    d
}

/// A colliding alias insertion leaves the table carrying the label already.
proof fn proof_alias_err(pre: Dict<String>, d: Dict<String>, glabel: Seq<char>)
    requires
        d == pre,
        exists|i: int| 0 <= i < pre.entries@.len() && (#[trigger] pre.entries@[i].0@) == glabel,
    ensures
        assoc_get(d.entries@, glabel) is Some,
{
    crate::dict::lemma_assoc_get_none(pre.entries@, glabel);
}

/// A value-preserving copy of a string list.
fn copy_strings(v: &Vec<String>) -> (r: Vec<String>)
    ensures
        r@ == v@,
{
    let n = v.len();
    let mut out: Vec<String> = Vec::new();
    let mut i: usize = 0;
    while i < n
        invariant
            i <= n,
            n == v@.len(),
            out@.len() == i,
            forall|j: int| 0 <= j < i ==> (#[trigger] out@[j]) == v@[j],
        decreases n - i,
    {
        out.push(v[i].clone());
        i = i + 1;
    }
    proof {
        assert(out@ =~= v@);
    }
    out
}

/// A value-preserving copy of the omitted-target stubs.
fn copy_pairs(v: &Vec<(String, String)>) -> (r: Vec<(String, String)>)
    ensures
        r@ == v@,
{
    let n = v.len();
    let mut out: Vec<(String, String)> = Vec::new();
    let mut i: usize = 0;
    while i < n
        invariant
            i <= n,
            n == v@.len(),
            out@.len() == i,
            forall|j: int| 0 <= j < i ==> (#[trigger] out@[j]) == v@[j],
        decreases n - i,
    {
        let k = v[i].0.clone();
        let w = v[i].1.clone();
        out.push((k, w));
        proof {
            assert((v@[i as int].0, v@[i as int].1) == v@[i as int]);
        }
        i = i + 1;
    }
    proof {
        assert(out@ =~= v@);
    }
    out
}

/// A value-preserving copy of an optional string.
fn copy_opt_string(v: &Option<String>) -> (r: Option<String>)
    ensures
        r == *v,
{
    match v {
        Some(s) => Some(s.clone()),
        None => None,
    }
}

/// A value-preserving copy of a crate's source.
fn copy_source(v: &PackageSource) -> (r: PackageSource)
    ensures
        r == *v,
{
    match v {
        PackageSource::Registry => PackageSource::Registry,
        PackageSource::Git { remote, commit, path_in_repo } => PackageSource::Git {
            remote: remote.clone(),
            commit: commit.clone(),
            path_in_repo: path_in_repo.clone(),
        },
    }
}

/// A value-preserving copy of a crate's build targets.
fn copy_targets(v: &Vec<BuildTarget>) -> (r: Vec<BuildTarget>)
    ensures
        r@ == v@,
{
    let n = v.len();
    let mut out: Vec<BuildTarget> = Vec::new();
    let mut i: usize = 0;
    while i < n
        invariant
            i <= n,
            n == v@.len(),
            out@.len() == i,
            forall|j: int| 0 <= j < i ==> (#[trigger] out@[j]) == v@[j],
        decreases n - i,
    {
        let t = BuildTarget {
            kind: v[i].kind,
            name: v[i].name.clone(),
            crate_root: v[i].crate_root.clone(),
        };
        proof {
            assert(t == v@[i as int]);
        }
        out.push(t);
        i = i + 1;
    }
    proof {
        assert(out@ =~= v@);
    }
    out
}

/// Carries an unknown-predicate failure from one override's map up to the
/// override table.
proof fn pred_override_evidence(
    ovr: Seq<(String, ConsolidatorOverride)>,
    name: Seq<char>,
    o: ConsolidatorOverride,
)
    requires
        exists|i: int| 0 <= i < ovr.len() && (#[trigger] ovr[i]).0@ == name && ovr[i].1 == o,
    ensures
        forall|pr: Seq<char>|
            pred_in_override(o, pr) ==> exists|oi: int|
                0 <= oi < ovr.len() && pred_in_override((#[trigger] ovr[oi]).1, pr),
{
    let i0 = choose|i: int| 0 <= i < ovr.len() && (#[trigger] ovr[i]).0@ == name && ovr[i].1 == o;
    assert forall|pr: Seq<char>| pred_in_override(o, pr) implies exists|oi: int|
        0 <= oi < ovr.len() && pred_in_override((#[trigger] ovr[oi]).1, pr) by {
        assert(pred_in_override(ovr[i0].1, pr));
    }
}

/// Builds one crate's consolidated form from its resolved counterpart and
/// its override.
fn build_crate_spec(
    p: &ResolvedPackage,
    triples: &Vec<String>,
    overrides: &Dict<ConsolidatorOverride>,
    cfg_matches: &Dict<Vec<String>>,
    gp: Ghost<ResolvedPackage>,
) -> (r: Result<CrateSpec, Error>)
    requires
        gp@ == *p,
        forall|a: int, b: int|
            0 <= a < b < triples@.len() ==> (#[trigger] triples@[a])@ != (#[trigger] triples@[b])@,
        overrides.wf(),
        forall|a: int|
            0 <= a < overrides.entries@.len() ==> (#[trigger] overrides.entries@[a]).1.wf(),
    ensures
        match r {
            Ok(cs) => crate_spec_ok(cs, gp@, triples@, overrides.entries@, *cfg_matches),
            Err(e) => match e {
                Error::ResolveFailed(_) => !deps_aligned(gp@, triples@),
                Error::UnknownPredicate(pr) => exists|oi: int|
                    0 <= oi < overrides.entries@.len() && pred_in_override(
                        (#[trigger] overrides.entries@[oi]).1,
                        pr@,
                    ) && pred_unknown(pr@, triples@, *cfg_matches),
                _ => false,
            },
        },
{
    if !check_aligned(p, triples, Ghost(gp@)) {
        return Err(
            Error::ResolveFailed(
                String::from_str("a crate's edge table does not match the triples"),
            ),
        );
    }
    let ovr_opt = overrides.get(p.name.as_str());
    proof {
        crate::dict::lemma_assoc_get_member(overrides.entries@, gp@.name@);
    }
    let empty_sv: Vec<String> = Vec::new();
    let removed: &Vec<String> = match &ovr_opt {
        Some(o) => &o.features_to_remove,
        None => &empty_sv,
    };
    proof {
        match ovr_opt {
            Some(o) => {
                let oi = choose|a: int|
                    0 <= a < overrides.entries@.len() && (#[trigger] overrides.entries@[a]).0@
                        == gp@.name@ && overrides.entries@[a].1 == *o;
                assert(overrides.entries@[oi].1.wf());
            },
            None => {},
        }
    }
    let features = collect_features(p, removed, Ghost(gp@));
    let (has_bs, kind) = scan_targets(&p.targets, Ghost(gp@));
    let tn = triples.len();
    let mut lists_run: Vec<Vec<String>> = Vec::new();
    let mut lists_build: Vec<Vec<String>> = Vec::new();
    let mut t: usize = 0;
    while t < tn
        invariant
            t <= tn,
            gp@ == *p,
            tn == triples@.len(),
            deps_aligned(gp@, triples@),
            lists_run@.len() == t,
            lists_build@.len() == t,
            forall|u: int| 0 <= u < t ==> strings_sorted_unique((#[trigger] lists_run@[u])@),
            forall|u: int| 0 <= u < t ==> strings_sorted_unique((#[trigger] lists_build@[u])@),
            forall|u: int|
                0 <= u < t ==> views_of((#[trigger] lists_run@[u])@) == edge_label_set(
                    gp@.deps_by_triple@[u].1@,
                    false,
                ),
            forall|u: int|
                0 <= u < t ==> views_of((#[trigger] lists_build@[u])@) == edge_label_set(
                    gp@.deps_by_triple@[u].1@,
                    true,
                ),
        decreases tn - t,
    {
        lists_run.push(edge_labels(&p.deps_by_triple[t].1, false));
        lists_build.push(edge_labels(&p.deps_by_triple[t].1, true));
        t = t + 1;
    }
    let rgroups = unify(triples, &lists_run);
    let rbgroups = unify(triples, &lists_build);
    let ghost grg = rgroups@;
    let ghost grbg = rbgroups@;
    let mut deps = rgroups;
    let mut build_deps = rbgroups;
    let mut data_deps: Vec<DepGroup> = Vec::new();
    let mut build_data_deps: Vec<DepGroup> = Vec::new();
    proof {
        assert(groups_ok(deps@, triples@));
        assert(groups_ok(build_deps@, triples@));
    }
    match &ovr_opt {
        Some(o) => {
            let og1 = match expand_override_deps(&o.extra_bazel_deps, triples, cfg_matches) {
                Ok(g) => g,
                Err(err) => {
                    proof {
                        pred_override_evidence(overrides.entries@, gp@.name@, **o);
                    }
                    return Err(err);
                },
            };
            let og2 = match expand_override_deps(&o.extra_bazel_data_deps, triples, cfg_matches) {
                Ok(g) => g,
                Err(err) => {
                    proof {
                        pred_override_evidence(overrides.entries@, gp@.name@, **o);
                    }
                    return Err(err);
                },
            };
            let og3 = match expand_override_deps(
                &o.extra_build_script_bazel_deps,
                triples,
                cfg_matches,
            ) {
                Ok(g) => g,
                Err(err) => {
                    proof {
                        pred_override_evidence(overrides.entries@, gp@.name@, **o);
                    }
                    return Err(err);
                },
            };
            let og4 = match expand_override_deps(
                &o.extra_build_script_bazel_data_deps,
                triples,
                cfg_matches,
            ) {
                Ok(g) => g,
                Err(err) => {
                    proof {
                        pred_override_evidence(overrides.entries@, gp@.name@, **o);
                    }
                    return Err(err);
                },
            };
            let ghost gog1 = og1@;
            let ghost gog2 = og2@;
            let ghost gog3 = og3@;
            let ghost gog4 = og4@;
            append_groups(&mut deps, og1, Ghost(triples@));
            append_groups(&mut data_deps, og2, Ghost(triples@));
            append_groups(&mut build_deps, og3, Ghost(triples@));
            append_groups(&mut build_data_deps, og4, Ghost(triples@));
            proof {
                lemma_resolver_grouped(grg, deps@, gp@, triples@, lists_run@, false);
                lemma_resolver_grouped(grbg, build_deps@, gp@, triples@, lists_build@, true);
                lemma_override_placed(gog1, deps@, o.extra_bazel_deps, triples@, *cfg_matches);
                lemma_override_placed(
                    gog2,
                    data_deps@,
                    o.extra_bazel_data_deps,
                    triples@,
                    *cfg_matches,
                );
                lemma_override_placed(
                    gog3,
                    build_deps@,
                    o.extra_build_script_bazel_deps,
                    triples@,
                    *cfg_matches,
                );
                lemma_override_placed(
                    gog4,
                    build_data_deps@,
                    o.extra_build_script_bazel_data_deps,
                    triples@,
                    *cfg_matches,
                );
            }
        },
        None => {
            proof {
                assert forall|g: int| 0 <= g < deps@.len() implies (#[trigger] deps@[g]).selector
                    == deps@[g].selector && deps@[g].labels@.is_prefix_of(deps@[g].labels@) by {
                    assert(deps@[g].labels@ =~= deps@[g].labels@.subrange(
                        0,
                        deps@[g].labels@.len() as int,
                    ));
                }
                assert forall|g: int|
                    0 <= g < build_deps@.len() implies (#[trigger] build_deps@[g]).selector
                    == build_deps@[g].selector && build_deps@[g].labels@.is_prefix_of(
                    build_deps@[g].labels@,
                ) by {
                    assert(build_deps@[g].labels@ =~= build_deps@[g].labels@.subrange(
                        0,
                        build_deps@[g].labels@.len() as int,
                    ));
                }
                lemma_resolver_grouped(grg, deps@, gp@, triples@, lists_run@, false);
                lemma_resolver_grouped(grbg, build_deps@, gp@, triples@, lists_build@, true);
            }
        },
    }
    let rustc_env = match &ovr_opt {
        Some(o) => copy_env(&o.extra_rust_env_vars),
        None => Dict::new(),
    };
    let build_script_env = match &ovr_opt {
        Some(o) => copy_env(&o.extra_build_script_env_vars),
        None => Dict::new(),
    };
    let aliases = collect_aliases(p, Ghost(gp@));
    let mut unsupported = copy_pairs(&p.unsupported_targets);
    sort_pairs(&mut unsupported);
    let cs = CrateSpec {
        name: p.name.clone(),
        version: p.version.clone(),
        kind,
        has_build_script: has_bs,
        edition: p.edition.clone(),
        license: p.license.clone(),
        links: copy_opt_string(&p.links),
        source: copy_source(&p.source),
        targets: copy_targets(&p.targets),
        features,
        deps,
        build_deps,
        data_deps,
        build_data_deps,
        aliases,
        rustc_env,
        build_script_env,
        unsupported_targets: unsupported,
    };
    proof {
        let ofor = override_for(overrides.entries@, gp@.name@);
        match ovr_opt {
            Some(o) => {
                assert(ofor == Some(*o));
                assert(cs.rustc_env.entries@ == ofor->0.extra_rust_env_vars.entries@);
                assert(cs.build_script_env.entries@
                    == ofor->0.extra_build_script_env_vars.entries@);
                assert(views_of(cs.features@) == all_features(gp@).difference(
                    views_of(o.features_to_remove@),
                ));
                assert(override_map_placed(
                    cs.deps@,
                    ofor->0.extra_bazel_deps,
                    triples@,
                    *cfg_matches,
                ));
                assert(override_map_placed(
                    cs.data_deps@,
                    ofor->0.extra_bazel_data_deps,
                    triples@,
                    *cfg_matches,
                ));
                assert(override_map_placed(
                    cs.build_deps@,
                    ofor->0.extra_build_script_bazel_deps,
                    triples@,
                    *cfg_matches,
                ));
                assert(override_map_placed(
                    cs.build_data_deps@,
                    ofor->0.extra_build_script_bazel_data_deps,
                    triples@,
                    *cfg_matches,
                ));
            },
            None => {
                assert(ofor is None);
                assert(views_of(empty_sv@) =~= Set::<Seq<char>>::empty());
                assert(cs.rustc_env.entries@ =~= Seq::<(String, String)>::empty());
                assert(cs.build_script_env.entries@ =~= Seq::<(String, String)>::empty());
            },
        }
        assert(resolver_edges_grouped(cs.deps@, gp@, triples@, false));
        assert(resolver_edges_grouped(cs.build_deps@, gp@, triples@, true));
        assert(aliases_complete(cs.aliases, gp@));
        assert(crate_spec_ok(cs, gp@, triples@, overrides.entries@, *cfg_matches));
    }
    Ok(cs)
}

impl Consolidator {
    /// Folds the sorted graph, the overrides, and the per-platform edge and
    /// feature sets into the consolidated model: one `CrateSpec` per crate in
    /// graph order, and the canonical target-name table. A crate whose edge
    /// table does not line up with the configured triples is `ResolveFailed`;
    /// an override selector nobody recognizes is `UnknownPredicate`.
    pub fn consolidate(self, cfg_matches: &Dict<Vec<String>>) -> (r: Result<
        ConsolidatedModel,
        Error,
    >)
        requires
            forall|i: int, j: int|
                0 <= i < j < self.target_triples@.len() ==> (#[trigger] self.target_triples@[i])@
                    != (#[trigger] self.target_triples@[j])@,
            self.consolidator_config.overrides.wf(),
            forall|i: int|
                0 <= i < self.consolidator_config.overrides.entries@.len() ==> (
                #[trigger] self.consolidator_config.overrides.entries@[i]).1.wf(),
            self.member_packages_version_mapping.wf(),
            graph_unique(self.resolved_packages@),
        ensures
            match r {
                Ok(m) => {
                    &&& m.digest == self.digest
                    &&& m.render_config == self.render_config
                    &&& m.target_triples == self.target_triples
                    &&& m.label_to_crates == self.label_to_crates
                    &&& m.crates@.len() == self.resolved_packages@.len()
                    &&& forall|i: int|
                        0 <= i < m.crates@.len() ==> crate_spec_ok(
                            #[trigger] m.crates@[i],
                            self.resolved_packages@[i],
                            self.target_triples@,
                            self.consolidator_config.overrides.entries@,
                            *cfg_matches,
                        )
                    &&& m.target_names@.len()
                        == self.member_packages_version_mapping.entries@.len()
                    &&& forall|i: int|
                        0 <= i < m.target_names@.len() ==> (#[trigger] m.target_names@[i]).0
                            == self.member_packages_version_mapping.entries@[i].0
                            && m.target_names@[i].1@ == crate_label_spec(
                            self.member_packages_version_mapping.entries@[i].0@,
                            self.member_packages_version_mapping.entries@[i].1@,
                        )
                    &&& entries_sorted(m.target_names@)
                    &&& m.proc_macro_names@ == pm_names_of(
                        self.member_packages_version_mapping.entries@,
                        m.crates@,
                    )
                },
                Err(e) => match e {
                    Error::ResolveFailed(_) => exists|i: int|
                        0 <= i < self.resolved_packages@.len() && !deps_aligned(
                            #[trigger] self.resolved_packages@[i],
                            self.target_triples@,
                        ),
                    Error::UnknownPredicate(pr) => exists|oi: int|
                        0 <= oi < self.consolidator_config.overrides.entries@.len()
                            && pred_in_override(
                            (#[trigger] self.consolidator_config.overrides.entries@[oi]).1,
                            pr@,
                        ) && pred_unknown(pr@, self.target_triples@, *cfg_matches),
                    _ => false,
                },
            },
    {
        let target_names = crate_target_names(&self.member_packages_version_mapping);
        let n = self.resolved_packages.len();
        let mut crates: Vec<CrateSpec> = Vec::new();
        let mut i: usize = 0;
        while i < n
            invariant
                i <= n,
                n == self.resolved_packages@.len(),
                crates@.len() == i,
                forall|a: int, b: int|
                    0 <= a < b < self.target_triples@.len() ==> (
                    #[trigger] self.target_triples@[a])@ != (#[trigger] self.target_triples@[b])@,
                self.consolidator_config.overrides.wf(),
                forall|a: int|
                    0 <= a < self.consolidator_config.overrides.entries@.len() ==> (
                    #[trigger] self.consolidator_config.overrides.entries@[a]).1.wf(),
                forall|j: int|
                    0 <= j < i ==> crate_spec_ok(
                        #[trigger] crates@[j],
                        self.resolved_packages@[j],
                        self.target_triples@,
                        self.consolidator_config.overrides.entries@,
                        *cfg_matches,
                    ),
            decreases n - i,
        {
            let ghost gp = self.resolved_packages@[i as int];
            let cs = match build_crate_spec(
                &self.resolved_packages[i],
                &self.target_triples,
                &self.consolidator_config.overrides,
                cfg_matches,
                Ghost(gp),
            ) {
                Ok(cs) => cs,
                Err(err) => {
                    return Err(err);
                },
            };
            let ghost pre_crates = crates@;
            let ghost gcs = cs;
            crates.push(cs);
            proof {
                assert forall|j: int| 0 <= j < i + 1 implies crate_spec_ok(
                    #[trigger] crates@[j],
                    self.resolved_packages@[j],
                    self.target_triples@,
                    self.consolidator_config.overrides.entries@,
                    *cfg_matches,
                ) by {
                    if j < i as int {
                        assert(crates@[j] == pre_crates[j]);
                    } else {
                        assert(crates@[j] == gcs);
                    }
                }
            }
            i = i + 1;
        }
        let mut pm_names: Vec<String> = Vec::new();
        let cn = self.member_packages_version_mapping.entries.len();
        let mut t: usize = 0;
        proof {
            assert(self.member_packages_version_mapping.entries@.subrange(0, 0) =~= Seq::<
                (String, String),
            >::empty());
            assert(pm_names@ =~= pm_names_of(
                self.member_packages_version_mapping.entries@.subrange(0, 0),
                crates@,
            ));
        }
        while t < cn
            invariant
                t <= cn,
                cn == self.member_packages_version_mapping.entries@.len(),
                pm_names@ == pm_names_of(
                    self.member_packages_version_mapping.entries@.subrange(0, t as int),
                    crates@,
                ),
            decreases cn - t,
        {
            let entry_name = self.member_packages_version_mapping.entries[t].0.as_str();
            let entry_ver = self.member_packages_version_mapping.entries[t].1.as_str();
            if crate_is_pm(&crates, entry_name, entry_ver) {
                pm_names.push(self.member_packages_version_mapping.entries[t].0.clone());
            }
            proof {
                assert(self.member_packages_version_mapping.entries@.subrange(
                    0,
                    t + 1,
                ).drop_last() =~= self.member_packages_version_mapping.entries@.subrange(
                    0,
                    t as int,
                ));
                assert(self.member_packages_version_mapping.entries@.subrange(0, t + 1).last()
                    == self.member_packages_version_mapping.entries@[t as int]);
                assert(pm_names@ =~= pm_names_of(
                    self.member_packages_version_mapping.entries@.subrange(0, t + 1),
                    crates@,
                ));
            }
            t = t + 1;
        }
        proof {
            assert(self.member_packages_version_mapping.entries@.subrange(0, cn as int)
                =~= self.member_packages_version_mapping.entries@);
        }
        let Consolidator {
            consolidator_config: _cc,
            render_config,
            digest,
            target_triples,
            resolved_packages: _rp,
            member_packages_version_mapping: _mm,
            label_to_crates,
        } = self;
        Ok(
            ConsolidatedModel {
                digest,
                render_config,
                target_triples,
                crates,
                target_names,
                proc_macro_names: pm_names,
                label_to_crates,
            },
        )
    }
}

} // verus!
