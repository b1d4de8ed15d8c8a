//! Orchestrates resolution: holds the merged manifest and the stage
//! configurations, computes and caches the lockfile hash, sorts the pinned
//! graph the upstream resolver returned, and derives the chosen-version map.
use crate::config::Package;
use crate::consolidator::{graph_unique, Consolidator, ConsolidatorConfig};
use crate::dict::Dict;
use crate::digest::{compute_digest, digest_stream, hex_of, sha256_of};
use crate::model::{Error, MemberDep, ResolvedPackage};
use crate::renderer::RenderConfig;
use crate::strutil::{lemma_lex_lt_total, lemma_lex_lt_trans, lex_le, lex_lt, str_eq, str_lt};
use crate::versions::{
    all_reqs_match, chosen_versions, get_version, has_normal_req, spec_choice, version_cmp,
    version_cmp_of, VersionOrder,
};
use vstd::multiset::Multiset;
use vstd::prelude::*;
use vstd::string::*;

verus! {

/// The resolver stage's own configuration: the path of the upstream resolver
/// binary.
pub struct ResolverConfig {
    pub cargo: String,
}

/// The outside facts the digest needs: this tool's version bytes (or its
/// executable's contents in a debug build), the upstream resolver's version
/// output, and a snapshot of the process environment.
pub struct DigestInputs {
    pub tool_version: Vec<u8>,
    pub cargo_version: Vec<u8>,
    pub env_vars: Vec<(String, String)>,
}

/// Graph order: by crate name, ties broken by version precedence.
pub open spec fn pkg_le(a: ResolvedPackage, b: ResolvedPackage) -> bool {
    lex_lt(a.name@, b.name@) || (a.name@ == b.name@ && version_cmp_of(a.version@, b.version@)
        != Some(VersionOrder::Greater))
}

/// The pinned graph in ascending (name, version) order: names ascend
/// throughout, and each crate's successor is no smaller.
pub open spec fn pkgs_sorted(s: Seq<ResolvedPackage>) -> bool {
    &&& forall|i: int| 0 <= i && i + 1 < s.len() ==> pkg_le(#[trigger] s[i], s[i + 1])
    &&& forall|i: int, j: int|
        0 <= i < j < s.len() ==> lex_le(#[trigger] s[i].name@, #[trigger] s[j].name@)
}

/// Every pair of versions in the sequence can be compared.
pub open spec fn cmps_ok(s: Seq<ResolvedPackage>) -> bool {
    forall|t: int, u: int|
        0 <= t < s.len() && 0 <= u < s.len() ==> version_cmp_of(
            (#[trigger] s[t]).version@,
            (#[trigger] s[u]).version@,
        ) is Some
}

/// Each element's version string also occurs in `orig`.
pub open spec fn versions_from(s: Seq<ResolvedPackage>, orig: Seq<ResolvedPackage>) -> bool {
    forall|t: int|
        0 <= t < s.len() ==> exists|u: int|
            0 <= u < orig.len() && (#[trigger] s[t]).version@ == (#[trigger] orig[u]).version@
}

proof fn lemma_lex_le_trans(a: Seq<char>, b: Seq<char>, c: Seq<char>)
    requires
        lex_le(a, b),
        lex_le(b, c),
    ensures
        lex_le(a, c),
{
    if lex_lt(a, b) && lex_lt(b, c) {
        lemma_lex_lt_trans(a, b, c);
    }
}

/// Checks that every pair of versions in the graph can be compared.
fn validate_cmps(pkgs: &Vec<ResolvedPackage>) -> (r: bool)
    ensures
        r == cmps_ok(pkgs@),
{
    let n = pkgs.len();
    let mut t: usize = 0;
    while t < n
        invariant
            t <= n,
            n == pkgs@.len(),
            forall|a: int, b: int|
                0 <= a < t && 0 <= b < n ==> version_cmp_of(
                    (#[trigger] pkgs@[a]).version@,
                    (#[trigger] pkgs@[b]).version@,
                ) is Some,
        decreases n - t,
    {
        let mut u: usize = 0;
        while u < n
            invariant
                t < n,
                u <= n,
                n == pkgs@.len(),
                forall|a: int, b: int|
                    0 <= a < t && 0 <= b < n ==> version_cmp_of(
                        (#[trigger] pkgs@[a]).version@,
                        (#[trigger] pkgs@[b]).version@,
                    ) is Some,
                forall|b: int|
                    0 <= b < u ==> version_cmp_of(
                        (#[trigger] pkgs@[t as int]).version@,
                        (#[trigger] pkgs@[b]).version@,
                    ) is Some,
            decreases n - u,
        {
            match version_cmp(pkgs[t].version.as_str(), pkgs[u].version.as_str()) {
                Some(_) => {},
                None => {
                    return false;
                },
            }
            u = u + 1;
        }
        t = t + 1;
    }
    true
}

/// The sort comparison, executable; callable only where the versions can be
/// compared. Where it answers no, the reverse order holds.
fn pkg_le_exec(a: &ResolvedPackage, b: &ResolvedPackage) -> (r: bool)
    requires
        version_cmp_of(a.version@, b.version@) is Some,
    ensures
        r == pkg_le(*a, *b),
        !r ==> pkg_le(*b, *a),
{
    if str_lt(a.name.as_str(), b.name.as_str()) {
        true
    } else if str_eq(a.name.as_str(), b.name.as_str()) {
        match version_cmp(a.version.as_str(), b.version.as_str()) {
            Some(VersionOrder::Greater) => false,
            Some(_) => true,
            None => {
                proof {
                    assert(false);
                }
                false
            },
        }
    } else {
        proof {
            lemma_lex_lt_total(a.name@, b.name@);
        }
        false
    }
}

/// Inserts one crate into an already sorted prefix of the graph.
fn insert_pkg_sorted(
    out: &mut Vec<ResolvedPackage>,
    x: ResolvedPackage,
    Ghost(orig): Ghost<Seq<ResolvedPackage>>,
)
    requires
        pkgs_sorted(old(out)@),
        versions_from(old(out)@, orig),
        cmps_ok(orig),
        exists|u: int| 0 <= u < orig.len() && x.version@ == (#[trigger] orig[u]).version@,
    ensures
        pkgs_sorted(final(out)@),
        final(out)@.to_multiset() == old(out)@.to_multiset().insert(x),
        versions_from(final(out)@, orig),
{
    let mut pos: usize = 0;
    let n = out.len();
    let ghost gx = x;
    loop
        invariant
            pos <= n,
            n == out@.len(),
            pkgs_sorted(out@),
            versions_from(out@, orig),
            cmps_ok(orig),
            gx == x,
            exists|u: int| 0 <= u < orig.len() && gx.version@ == (#[trigger] orig[u]).version@,
            forall|j: int| 0 <= j < pos ==> pkg_le(#[trigger] out@[j], gx),
        ensures
            pos <= n,
            n == out@.len(),
            forall|j: int| 0 <= j < pos ==> pkg_le(#[trigger] out@[j], gx),
            pos < n ==> pkg_le(gx, out@[pos as int]),
        decreases n - pos,
    {
        if pos >= n {
            break ;
        }
        proof {
            let u1 = choose|u: int|
                0 <= u < orig.len() && out@[pos as int].version@ == (#[trigger] orig[u]).version@;
            let u2 = choose|u: int|
                0 <= u < orig.len() && gx.version@ == (#[trigger] orig[u]).version@;
            assert(version_cmp_of(orig[u1].version@, orig[u2].version@) is Some);
            assert(version_cmp_of(out@[pos as int].version@, gx.version@) is Some);
        }
        if !pkg_le_exec(&out[pos], &x) {
            break ;
        }
        pos = pos + 1;
    }
    let ghost old_seq = out@;
    out.insert(pos, x);
    proof {
        assert(out@ =~= old_seq.subrange(0, pos as int).push(gx) + old_seq.subrange(
            pos as int,
            old_seq.len() as int,
        ));
        crate::strutil::lemma_insert_multiset(old_seq, gx, pos as int);
        assert forall|i: int| 0 <= i && i + 1 < out@.len() implies pkg_le(
            #[trigger] out@[i],
            out@[i + 1],
        ) by {
            if i + 1 < pos {
                assert(out@[i] == old_seq[i] && out@[i + 1] == old_seq[i + 1]);
            } else if i + 1 == pos {
                assert(out@[i] == old_seq[i]);
                assert(pkg_le(out@[i], gx));
            } else if i == pos {
                if i + 1 <= old_seq.len() && pos < old_seq.len() {
                    assert(out@[i + 1] == old_seq[pos as int]);
                    assert(pkg_le(gx, old_seq[pos as int]));
                }
            } else {
                assert(out@[i] == old_seq[i - 1] && out@[i + 1] == old_seq[i]);
            }
        }
        assert forall|i: int, j: int| 0 <= i < j < out@.len() implies lex_le(
            #[trigger] out@[i].name@,
            #[trigger] out@[j].name@,
        ) by {
            if i < pos && j == pos {
                assert(pkg_le(old_seq[i], gx));
            } else if i == pos && j > pos {
                assert(out@[j] == old_seq[j - 1]);
                if pos < old_seq.len() {
                    assert(pkg_le(gx, old_seq[pos as int]));
                    assert(lex_le(gx.name@, old_seq[pos as int].name@));
                    if j - 1 > pos {
                        assert(lex_le(old_seq[pos as int].name@, old_seq[j - 1].name@));
                        lemma_lex_le_trans(gx.name@, old_seq[pos as int].name@, out@[j].name@);
                    }
                }
            } else if i < pos && j > pos {
                assert(out@[i] == old_seq[i] && out@[j] == old_seq[j - 1]);
                if i == j - 1 {
                    assert(lex_le(out@[i].name@, out@[j].name@));
                }
            } else if i > pos && j > pos {
                assert(out@[i] == old_seq[i - 1] && out@[j] == old_seq[j - 1]);
            } else if i < pos && j < pos {
                assert(out@[i] == old_seq[i] && out@[j] == old_seq[j]);
            }
        }
        assert forall|t: int| 0 <= t < out@.len() implies exists|u: int|
            0 <= u < orig.len() && (#[trigger] out@[t]).version@ == (
            #[trigger] orig[u]).version@ by {
            if t < pos {
                assert(out@[t] == old_seq[t]);
            } else if t > pos {
                assert(out@[t] == old_seq[t - 1]);
            } else {
                assert(out@[t] == gx);
            }
        }
    }
}

/// Sorts the pinned graph in ascending (name, version) order, keeping
/// exactly the crates the resolver returned; where two versions cannot be
/// compared the graph is left as it was and `ResolveFailed` comes back.
pub fn sort_resolved(v: &mut Vec<ResolvedPackage>) -> (r: Result<(), Error>)
    ensures
        match r {
            Ok(_) => {
                &&& pkgs_sorted(final(v)@)
                &&& final(v)@.to_multiset() == old(v)@.to_multiset()
                &&& cmps_ok(old(v)@)
            },
            Err(e) => {
                &&& *final(v) == *old(v)
                &&& e matches Error::ResolveFailed(_)
                &&& !cmps_ok(old(v)@)
            },
        },
{
    if !validate_cmps(v) {
        return Err(
            Error::ResolveFailed(String::from_str("a resolved version could not be compared")),
        );
    }
    let ghost orig = v@;
    let n0 = v.len();
    assert(orig.len() <= usize::MAX);
    let mut out: Vec<ResolvedPackage> = Vec::new();
    let mut k: usize = 0;
    proof {
        broadcast use vstd::seq_lib::group_to_multiset_ensures;

        assert(v@.subrange(0, 0) =~= Seq::<ResolvedPackage>::empty());
        assert(out@.to_multiset() =~= v@.subrange(0, 0).to_multiset());
    }
    while v.len() > 0
        invariant
            orig == old(v)@,
            k <= orig.len(),
            orig.len() <= usize::MAX,
            cmps_ok(orig),
            v@ == orig.subrange(k as int, orig.len() as int),
            pkgs_sorted(out@),
            versions_from(out@, orig),
            out@.to_multiset() == orig.subrange(0, k as int).to_multiset(),
        decreases v@.len(),
    {
        let x = v.remove(0);
        assert(x == orig[k as int]);
        insert_pkg_sorted(&mut out, x, Ghost(orig));
        proof {
            broadcast use vstd::seq_lib::group_to_multiset_ensures;

            assert(orig.subrange(0, k + 1) =~= orig.subrange(0, k as int).push(orig[k as int]));
            assert(orig.subrange(0, k + 1).to_multiset() =~= orig.subrange(
                0,
                k as int,
            ).to_multiset().insert(orig[k as int]));
            assert(v@ =~= orig.subrange(k + 1, orig.len() as int));
        }
        k = k + 1;
    }
    proof {
        assert(orig.subrange(0, k as int) =~= orig);
    }
    *v = out;
    Ok(())
}

/// The resolver's raw product before consolidation: the pinned graph and the
/// per-name chosen-version map.
pub struct ResolvedArtifactsWithMetadata {
    pub resolved_packages: Vec<ResolvedPackage>,
    pub member_packages_version_mapping: Dict<String>,
}

proof fn lemma_two_indices_give_count<A>(s: Seq<A>, i: int, j: int)
    requires
        0 <= i < j < s.len(),
        s[i] == s[j],
    ensures
        s.to_multiset().count(s[i]) >= 2,
{
    broadcast use vstd::seq_lib::group_to_multiset_ensures;

    let s2 = s.remove(j);
    assert(s2.to_multiset() =~= s.to_multiset().remove(s[j]));
    assert(s2[i] == s[i]);
    assert(s2.contains(s[i]));
    assert(s2.to_multiset().count(s[i]) > 0);
    assert(s.to_multiset().count(s[i]) == s2.to_multiset().count(s[i]) + 1);
}

proof fn lemma_count_gives_two_indices<A>(s: Seq<A>, v: A)
    requires
        s.to_multiset().count(v) >= 2,
    ensures
        exists|i: int, j: int| 0 <= i < j < s.len() && (#[trigger] s[i]) == v && (#[trigger] s[j]) == v,
{
    broadcast use vstd::seq_lib::group_to_multiset_ensures;

    assert(s.contains(v));
    let i = choose|i: int| 0 <= i < s.len() && s[i] == v;
    let s2 = s.remove(i);
    assert(s2.to_multiset() =~= s.to_multiset().remove(v));
    assert(s2.to_multiset().count(v) >= 1);
    assert(s2.contains(v));
    let k = choose|k: int| 0 <= k < s2.len() && s2[k] == v;
    if k < i {
        assert(s2[k] == s[k]);
        assert(0 <= k < i < s.len() && s[k] == v && s[i] == v);
    } else {
        assert(s2[k] == s[k + 1]);
        assert(0 <= i < k + 1 < s.len() && s[i] == v && s[k + 1] == v);
    }
}

/// A permutation of a graph without duplicate (name, version) pairs has none
/// either.
pub proof fn lemma_unique_permutation(a: Seq<ResolvedPackage>, b: Seq<ResolvedPackage>)
    requires
        a.to_multiset() == b.to_multiset(),
        graph_unique(a),
    ensures
        graph_unique(b),
{
    broadcast use vstd::seq_lib::group_to_multiset_ensures;

    assert forall|i: int, j: int| 0 <= i < j < b.len() implies !((#[trigger] b[i]).name@ == (
    #[trigger] b[j]).name@ && b[i].version@ == b[j].version@) by {
        if b[i].name@ == b[j].name@ && b[i].version@ == b[j].version@ {
            if b[i] == b[j] {
                lemma_two_indices_give_count(b, i, j);
                lemma_count_gives_two_indices(a, b[i]);
                let (x, y) = choose|x: int, y: int|
                    0 <= x < y < a.len() && (#[trigger] a[x]) == b[i] && (#[trigger] a[y]) == b[i];
                assert(!(a[x].name@ == a[y].name@ && a[x].version@ == a[y].version@));
            } else {
                assert(b.contains(b[i]));
                assert(b.contains(b[j]));
                assert(a.to_multiset().contains(b[i]));
                assert(a.to_multiset().contains(b[j]));
                assert(a.contains(b[i]));
                assert(a.contains(b[j]));
                let x = choose|x: int| 0 <= x < a.len() && a[x] == b[i];
                let y = choose|y: int| 0 <= y < a.len() && a[y] == b[j];
                assert(x != y);
                if x < y {
                    assert(!(a[x].name@ == a[y].name@ && a[x].version@ == a[y].version@));
                } else {
                    assert(!(a[y].name@ == a[x].name@ && a[y].version@ == a[x].version@));
                }
            }
        }
    }
}

/// The whole pipeline state between preprocessing and consolidation: the
/// merged manifest as structured data, the stage configurations, and the
/// cached lockfile hash.
pub struct Resolver {
    pub deps: Dict<String>,
    pub packages: Vec<Package>,
    pub patch: Option<String>,
    pub resolver_config: ResolverConfig,
    pub consolidator_config: ConsolidatorConfig,
    pub render_config: RenderConfig,
    pub target_triples: Vec<String>,
    pub label_to_crates: Dict<Vec<String>>,
    pub digest: Option<String>,
}

impl Resolver {
    pub fn new(
        deps: Dict<String>,
        packages: Vec<Package>,
        patch: Option<String>,
        resolver_config: ResolverConfig,
        consolidator_config: ConsolidatorConfig,
        render_config: RenderConfig,
        target_triples: Vec<String>,
        label_to_crates: Dict<Vec<String>>,
    ) -> (r: Resolver)
        ensures
            r.deps == deps,
            r.packages == packages,
            r.patch == patch,
            r.resolver_config == resolver_config,
            r.consolidator_config == consolidator_config,
            r.render_config == render_config,
            r.target_triples == target_triples,
            r.label_to_crates == label_to_crates,
            r.digest is None,
    {
        Resolver {
            deps,
            packages,
            patch,
            resolver_config,
            consolidator_config,
            render_config,
            target_triples,
            label_to_crates,
            digest: None,
        }
    }

    /// The lockfile hash over every hashed input, computed once and cached:
    /// a repeated call returns the cached value unchanged.
    pub fn digest(&mut self, inputs: &DigestInputs, manifest_toml: &String) -> (r: String)
        ensures
            final(self).digest == Some(r),
            final(self).deps == old(self).deps,
            final(self).packages == old(self).packages,
            final(self).patch == old(self).patch,
            final(self).resolver_config == old(self).resolver_config,
            final(self).consolidator_config == old(self).consolidator_config,
            final(self).render_config == old(self).render_config,
            final(self).target_triples == old(self).target_triples,
            final(self).label_to_crates == old(self).label_to_crates,
            match old(self).digest {
                Some(d0) => r == d0,
                None => r@ == hex_of(
                    sha256_of(
                        digest_stream(
                            inputs.tool_version@,
                            old(self).render_config.repository_template@,
                            inputs.cargo_version@,
                            old(self).target_triples@,
                            old(self).label_to_crates.entries@,
                            old(self).consolidator_config.overrides.entries@,
                            inputs.env_vars@,
                            manifest_toml@,
                        ),
                    ),
                ) && r@.len() == 64,
            },
    {
        let cached = match &self.digest {
            Some(d) => Some(d.clone()),
            None => None,
        };
        match cached {
            Some(d) => d,
            None => {
                let d = compute_digest(
                    &inputs.tool_version,
                    &self.render_config.repository_template,
                    &inputs.cargo_version,
                    &self.target_triples,
                    &self.label_to_crates,
                    &self.consolidator_config.overrides,
                    &inputs.env_vars,
                    manifest_toml,
                );
                let d2 = d.clone();
                self.digest = Some(d);
                d2
            },
        }
    }

    /// Consumes the resolver state and the pinned graph the upstream
    /// resolver returned: sorts the graph, derives the chosen-version map
    /// from the members' requirements, fixes the lockfile hash, and hands
    /// everything to the consolidator.
    pub fn resolve(
        self,
        resolved_packages: Vec<ResolvedPackage>,
        member_deps: &Vec<MemberDep>,
        inputs: &DigestInputs,
        manifest_toml: &String,
    ) -> (r: Result<Consolidator, Error>)
        requires
            graph_unique(resolved_packages@),
        ensures
            match r {
                Ok(c) => {
                    &&& c.consolidator_config == self.consolidator_config
                    &&& c.render_config == self.render_config
                    &&& c.target_triples == self.target_triples
                    &&& c.label_to_crates == self.label_to_crates
                    &&& pkgs_sorted(c.resolved_packages@)
                    &&& c.resolved_packages@.to_multiset() == resolved_packages@.to_multiset()
                    &&& graph_unique(c.resolved_packages@)
                    &&& c.member_packages_version_mapping.wf()
                    &&& forall|nm: Seq<char>| #[trigger]
                        get_version(c.member_packages_version_mapping, nm) == spec_choice(
                            member_deps@,
                            c.resolved_packages@,
                            nm,
                        )
                    &&& forall|t: int|
                        0 <= t < c.resolved_packages@.len() && has_normal_req(
                            member_deps@,
                            (#[trigger] c.resolved_packages@[t]).name@,
                        ) ==> get_version(
                            c.member_packages_version_mapping,
                            c.resolved_packages@[t].name@,
                        ) is Some
                    &&& match self.digest {
                        Some(d0) => c.digest == d0,
                        None => c.digest@ == hex_of(
                            sha256_of(
                                digest_stream(
                                    inputs.tool_version@,
                                    self.render_config.repository_template@,
                                    inputs.cargo_version@,
                                    self.target_triples@,
                                    self.label_to_crates.entries@,
                                    self.consolidator_config.overrides.entries@,
                                    inputs.env_vars@,
                                    manifest_toml@,
                                ),
                            ),
                        ) && c.digest@.len() == 64,
                    }
                },
                Err(e) => match e {
                    Error::ResolveFailed(_) => !cmps_ok(resolved_packages@) || (exists|t: int|
                        0 <= t < resolved_packages@.len() && all_reqs_match(
                            member_deps@,
                            (#[trigger] resolved_packages@[t]).name@,
                            resolved_packages@[t].version@,
                        ) is None),
                    Error::NoCommonVersion(n) => {
                        &&& has_normal_req(member_deps@, n@)
                        &&& exists|t: int|
                            0 <= t < resolved_packages@.len() && (
                            #[trigger] resolved_packages@[t]).name@ == n@
                    },
                    _ => false,
                },
            },
    {
        let ghost gorig = resolved_packages@;
        let mut pkgs = resolved_packages;
        match sort_resolved(&mut pkgs) {
            Ok(_) => {},
            Err(e) => {
                return Err(e);
            },
        }
        let chosen = match chosen_versions(member_deps, &pkgs) {
            Ok(c) => c,
            Err(e) => {
                proof {
                    broadcast use vstd::seq_lib::group_to_multiset_ensures;

                    match e {
                        Error::ResolveFailed(_) => {
                            if exists|t: int|
                                0 <= t < pkgs@.len() && all_reqs_match(
                                    member_deps@,
                                    (#[trigger] pkgs@[t]).name@,
                                    pkgs@[t].version@,
                                ) is None {
                                let t = choose|t: int|
                                    0 <= t < pkgs@.len() && all_reqs_match(
                                        member_deps@,
                                        (#[trigger] pkgs@[t]).name@,
                                        pkgs@[t].version@,
                                    ) is None;
                                let ep = pkgs@[t];
                                assert(pkgs@.contains(ep));
                                assert(gorig.to_multiset().contains(ep));
                                assert(gorig.contains(ep));
                                let t0 = choose|t0: int|
                                    0 <= t0 < gorig.len() && gorig[t0] == ep;
                                assert(all_reqs_match(
                                    member_deps@,
                                    gorig[t0].name@,
                                    gorig[t0].version@,
                                ) is None);
                            } else {
                                let (t, u) = choose|t: int, u: int|
                                    0 <= t < pkgs@.len() && 0 <= u < pkgs@.len()
                                        && version_cmp_of(
                                        (#[trigger] pkgs@[t]).version@,
                                        (#[trigger] pkgs@[u]).version@,
                                    ) is None;
                                let ep1 = pkgs@[t];
                                let ep2 = pkgs@[u];
                                assert(pkgs@.contains(ep1) && pkgs@.contains(ep2));
                                assert(gorig.to_multiset().contains(ep1));
                                assert(gorig.to_multiset().contains(ep2));
                                assert(gorig.contains(ep1) && gorig.contains(ep2));
                                let o1 = choose|o: int| 0 <= o < gorig.len() && gorig[o] == ep1;
                                let o2 = choose|o: int| 0 <= o < gorig.len() && gorig[o] == ep2;
                                assert(version_cmp_of(gorig[o1].version@, gorig[o2].version@)
                                    is Some);
                                assert(false);
                            }
                        },
                        Error::NoCommonVersion(ref n) => {
                            let t = choose|t: int|
                                0 <= t < pkgs@.len() && (#[trigger] pkgs@[t]).name@ == n@;
                            let ep = pkgs@[t];
                            assert(pkgs@.contains(ep));
                            assert(gorig.to_multiset().contains(ep));
                            assert(gorig.contains(ep));
                            let t0 = choose|t0: int| 0 <= t0 < gorig.len() && gorig[t0] == ep;
                            assert(gorig[t0].name@ == n@);
                        },
                        _ => {
                            assert(false);
                        },
                    }
                }
                return Err(e);
            },
        };
        proof {
            lemma_unique_permutation(gorig, pkgs@);
        }
        let mut me = self;
        let d = me.digest(inputs, manifest_toml);
        Ok(
            Consolidator {
                consolidator_config: me.consolidator_config,
                render_config: me.render_config,
                digest: d,
                target_triples: me.target_triples,
                resolved_packages: pkgs,
                member_packages_version_mapping: chosen,
                label_to_crates: me.label_to_crates,
            },
        )
    }
}

} // verus!
