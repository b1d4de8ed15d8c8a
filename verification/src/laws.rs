//! The library's stated laws: determinism of the rendered model, what the
//! lockfile hash ignores, the ordering of the emitted model, the label round
//! trip, and the shape of every emitted platform selector.
use crate::consolidator::{crate_spec_ok, groups_ok, ConsolidatedModel, CrateSpec};
use crate::dict::{entries_sorted, Dict};
use crate::digest::{digest_stream, env_kept, filter_env, hex_of, sha256_of};
use crate::model::{ConsolidatorOverride, ResolvedPackage};
use crate::resolver::{pkg_le, pkgs_sorted};
use crate::strutil::{lex_le, lex_lt};
use crate::versions::{version_cmp_of, VersionOrder};
use vstd::prelude::*;
use vstd::string::*;

verus! {

/// Determinism of the lockfile hash: two digests computed over equal hashed
/// inputs are byte-identical.
pub proof fn law_digest_deterministic(
    d1: String,
    d2: String,
    tool: Seq<u8>,
    template: Seq<char>,
    cargo_ver: Seq<u8>,
    triples: Seq<String>,
    label_to_crates: Seq<(String, Vec<String>)>,
    overrides: Seq<(String, ConsolidatorOverride)>,
    env: Seq<(String, String)>,
    manifest: Seq<char>,
)
    requires
        d1@ == hex_of(
            sha256_of(
                digest_stream(
                    tool,
                    template,
                    cargo_ver,
                    triples,
                    label_to_crates,
                    overrides,
                    env,
                    manifest,
                ),
            ),
        ),
        d2@ == hex_of(
            sha256_of(
                digest_stream(
                    tool,
                    template,
                    cargo_ver,
                    triples,
                    label_to_crates,
                    overrides,
                    env,
                    manifest,
                ),
            ),
        ),
    ensures
        d1@ == d2@,
{
}

/// The cache-location variable and the transport switch are not hashed.
pub proof fn law_unhashed_variables()
    ensures
        !env_kept("CARGO_HOME"@),
        !env_kept("CARGO_NET_GIT_FETCH_WITH_CLI"@),
{
}

/// An environment variable outside the hashed set leaves the digest stream,
/// and so the lockfile hash, unchanged.
pub proof fn law_digest_ignores_excluded_env(
    tool: Seq<u8>,
    template: Seq<char>,
    cargo_ver: Seq<u8>,
    triples: Seq<String>,
    label_to_crates: Seq<(String, Vec<String>)>,
    overrides: Seq<(String, ConsolidatorOverride)>,
    env: Seq<(String, String)>,
    var: (String, String),
    manifest: Seq<char>,
)
    requires
        !env_kept(var.0@),
    ensures
        digest_stream(
            tool,
            template,
            cargo_ver,
            triples,
            label_to_crates,
            overrides,
            env.push(var),
            manifest,
        ) == digest_stream(
            tool,
            template,
            cargo_ver,
            triples,
            label_to_crates,
            overrides,
            env,
            manifest,
        ),
{
    assert(env.push(var).drop_last() =~= env);
    assert(env.push(var).last() == var);
    assert(filter_env(env.push(var)) == filter_env(env));
}

/// Order of the model: with the graph sorted ascending by (name, version),
/// the consolidated crates stand in the same ascending order, names ascending
/// throughout and each crate's successor no smaller.
#[verifier::rlimit(100)]
pub proof fn law_crates_ordered(
    crates: Seq<CrateSpec>,
    resolved: Seq<ResolvedPackage>,
    triples: Seq<String>,
    overrides: Seq<(String, ConsolidatorOverride)>,
    cfg_matches: Dict<Vec<String>>,
)
    requires
        pkgs_sorted(resolved),
        crates.len() == resolved.len(),
        forall|i: int|
            0 <= i < crates.len() ==> crate_spec_ok(
                #[trigger] crates[i],
                resolved[i],
                triples,
                overrides,
                cfg_matches,
            ),
    ensures
        forall|i: int, j: int|
            0 <= i < j < crates.len() ==> lex_le(
                (#[trigger] crates[i]).name@,
                (#[trigger] crates[j]).name@,
            ),
        forall|i: int|
            0 <= i && i + 1 < crates.len() ==> lex_lt(
                (#[trigger] crates[i]).name@,
                crates[i + 1].name@,
            ) || (crates[i].name@ == crates[i + 1].name@ && version_cmp_of(
                crates[i].version@,
                crates[i + 1].version@,
            ) != Some(VersionOrder::Greater)),
{
    assert forall|i: int, j: int| 0 <= i < j < crates.len() implies lex_le(
        (#[trigger] crates[i]).name@,
        (#[trigger] crates[j]).name@,
    ) by {
        assert(crates[i].name == resolved[i].name);
        assert(crates[j].name == resolved[j].name);
        assert(lex_le(resolved[i].name@, resolved[j].name@));
    }
    assert forall|i: int| 0 <= i && i + 1 < crates.len() implies lex_lt(
        (#[trigger] crates[i]).name@,
        crates[i + 1].name@,
    ) || (crates[i].name@ == crates[i + 1].name@ && version_cmp_of(
        crates[i].version@,
        crates[i + 1].version@,
    ) != Some(VersionOrder::Greater)) by {
        assert(crates[i].name == resolved[i].name);
        assert(crates[i + 1].name == resolved[i + 1].name);
        assert(crates[i].version == resolved[i].version);
        assert(crates[i + 1].version == resolved[i + 1].version);
        assert(pkg_le(resolved[i], resolved[i + 1]));
    }
}

/// The canonical target-name table is keyed in strictly ascending name order.
pub proof fn law_target_names_ordered(names: Seq<(String, String)>)
    requires
        entries_sorted(names),
    ensures
        forall|i: int, j: int|
            0 <= i < j < names.len() ==> lex_lt((#[trigger] names[i]).0@, (#[trigger] names[j]).0@),
{
}

/// Every platform selector of every dependency category of every
/// consolidated crate is either unconditional or a non-empty duplicate-free
/// subset of the configured triples.
pub proof fn law_selectors_subset(
    crates: Seq<CrateSpec>,
    resolved: Seq<ResolvedPackage>,
    triples: Seq<String>,
    overrides: Seq<(String, ConsolidatorOverride)>,
    cfg_matches: Dict<Vec<String>>,
)
    requires
        crates.len() == resolved.len(),
        forall|i: int|
            0 <= i < crates.len() ==> crate_spec_ok(
                #[trigger] crates[i],
                resolved[i],
                triples,
                overrides,
                cfg_matches,
            ),
    ensures
        forall|i: int|
            0 <= i < crates.len() ==> groups_ok((#[trigger] crates[i]).deps@, triples) && groups_ok(
                crates[i].build_deps@,
                triples,
            ) && groups_ok(crates[i].data_deps@, triples) && groups_ok(
                crates[i].build_data_deps@,
                triples,
            ),
{
}

/// Determinism of the consolidated model: two models satisfying the
/// consolidation contract over the same graph and configuration agree on the
/// digest and, crate by crate, on name, version and feature set.
pub proof fn law_model_deterministic(
    m1: ConsolidatedModel,
    m2: ConsolidatedModel,
    digest: String,
    resolved: Seq<ResolvedPackage>,
    triples: Seq<String>,
    overrides: Seq<(String, ConsolidatorOverride)>,
    cfg_matches: Dict<Vec<String>>,
)
    requires
        m1.digest == digest,
        m2.digest == digest,
        m1.crates@.len() == resolved.len(),
        m2.crates@.len() == resolved.len(),
        forall|i: int|
            0 <= i < m1.crates@.len() ==> crate_spec_ok(
                #[trigger] m1.crates@[i],
                resolved[i],
                triples,
                overrides,
                cfg_matches,
            ),
        forall|i: int|
            0 <= i < m2.crates@.len() ==> crate_spec_ok(
                #[trigger] m2.crates@[i],
                resolved[i],
                triples,
                overrides,
                cfg_matches,
            ),
    ensures
        m1.digest == m2.digest,
        m1.crates@.len() == m2.crates@.len(),
        forall|i: int|
            0 <= i < m1.crates@.len() ==> (#[trigger] m1.crates@[i]).name == m2.crates@[i].name
                && m1.crates@[i].version == m2.crates@[i].version && crate::dict::views_of(
                m1.crates@[i].features@,
            ) == crate::dict::views_of(m2.crates@[i].features@),
{
    assert forall|i: int| 0 <= i < m1.crates@.len() implies (#[trigger] m1.crates@[i]).name
        == m2.crates@[i].name && m1.crates@[i].version == m2.crates@[i].version
        && crate::dict::views_of(m1.crates@[i].features@) == crate::dict::views_of(
        m2.crates@[i].features@,
    ) by {
        assert(crate_spec_ok(m1.crates@[i], resolved[i], triples, overrides, cfg_matches));
        assert(crate_spec_ok(m2.crates@[i], resolved[i], triples, overrides, cfg_matches));
    }
}

/// Concatenation cancels in the middle: equal streams with equal fixed
/// surroundings carry equal middles of equal length.
proof fn lemma_mid_cancel(a: Seq<u8>, x: Seq<u8>, y: Seq<u8>, b: Seq<u8>)
    requires
        a + x + b == a + y + b,
        x.len() == y.len(),
    ensures
        x == y,
{
    assert forall|k: int| 0 <= k < x.len() implies x[k] == y[k] by {
        assert((a + x + b)[a.len() + k] == x[k]);
        assert((a + y + b)[a.len() + k] == y[k]);
    }
    assert(x =~= y);
}

/// Digest sensitivity for the URL template: with every other hashed input
/// fixed, two different templates produce two different digest streams, and
/// so two different hashed inputs.
#[verifier::rlimit(100)]
pub proof fn law_digest_template_sensitive(
    tool: Seq<u8>,
    t1: Seq<char>,
    t2: Seq<char>,
    cargo_ver: Seq<u8>,
    triples: Seq<String>,
    label_to_crates: Seq<(String, Vec<String>)>,
    overrides: Seq<(String, ConsolidatorOverride)>,
    env: Seq<(String, String)>,
    manifest: Seq<char>,
)
    requires
        t1 != t2,
    ensures
        digest_stream(tool, t1, cargo_ver, triples, label_to_crates, overrides, env, manifest)
            != digest_stream(
            tool,
            t2,
            cargo_ver,
            triples,
            label_to_crates,
            overrides,
            env,
            manifest,
        ),
{
    let e1 = vstd::utf8::encode_utf8(t1);
    let e2 = vstd::utf8::encode_utf8(t2);
    let s1 = digest_stream(tool, t1, cargo_ver, triples, label_to_crates, overrides, env, manifest);
    let s2 = digest_stream(tool, t2, cargo_ver, triples, label_to_crates, overrides, env, manifest);
    if s1 == s2 {
        let a = tool + crate::digest::z();
        let b = crate::digest::z() + cargo_ver + crate::digest::z() + crate::digest::strings_z(
            triples,
        ) + crate::digest::z() + crate::digest::kv_list_z(label_to_crates)
            + crate::digest::overrides_z(overrides) + crate::digest::env_pairs_z(filter_env(env))
            + vstd::utf8::encode_utf8(manifest) + crate::digest::z();
        assert(s1 =~= a + e1 + b);
        assert(s2 =~= a + e2 + b);
        assert(e1.len() == e2.len());
        lemma_mid_cancel(a, e1, e2, b);
        broadcast use vstd::utf8::encode_utf8_decode_utf8;

        assert(vstd::utf8::decode_utf8(e1) == t1);
        assert(vstd::utf8::decode_utf8(e2) == t2);
        assert(false);
    }
}

} // verus!
