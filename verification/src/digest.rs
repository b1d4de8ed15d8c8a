//! The lockfile hash: a SHA-256 over a canonical byte stream of every input
//! that can affect the rendered output, with zero bytes between fields. The
//! stream layout is fixed here as a specification; altering any hashed field
//! alters the stream.
use crate::dict::Dict;
use crate::model::ConsolidatorOverride;
use crate::strutil::str_eq;
use sha2::Digest;
use vstd::prelude::*;
use vstd::string::*;
use vstd::utf8::encode_utf8;

verus! {

/// The single zero byte that separates fields.
pub open spec fn z() -> Seq<u8> {
    seq![0u8]
}

/// A string's bytes followed by the separator.
pub open spec fn str_z(s: Seq<char>) -> Seq<u8> {
    encode_utf8(s) + z()
}

/// Each string, separator-terminated, in order.
pub open spec fn strings_z(v: Seq<String>) -> Seq<u8>
    decreases v.len(),
{
    if v.len() == 0 {
        Seq::empty()
    } else {
        strings_z(v.drop_last()) + str_z(v.last()@)
    }
}

/// Key-value pairs as `key NUL value NUL`, in order.
pub open spec fn env_pairs_z(s: Seq<(String, String)>) -> Seq<u8>
    decreases s.len(),
{
    if s.len() == 0 {
        Seq::empty()
    } else {
        env_pairs_z(s.drop_last()) + str_z(s.last().0@) + str_z(s.last().1@)
    }
}

/// A keyed list of strings: `key NUL` then each string `NUL`-terminated.
pub open spec fn kv_list_z(s: Seq<(String, Vec<String>)>) -> Seq<u8>
    decreases s.len(),
{
    if s.len() == 0 {
        Seq::empty()
    } else {
        kv_list_z(s.drop_last()) + str_z(s.last().0@) + strings_z(s.last().1@)
    }
}

/// Feature names, each terminated by the separator.
pub open spec fn features_z(v: Seq<String>) -> Seq<u8>
    decreases v.len(),
{
    if v.len() == 0 {
        Seq::empty()
    } else {
        features_z(v.drop_last()) + str_z(v.last()@)
    }
}

/// One override's contribution: its crate name, both environment maps, the
/// four dependency maps, then the features to remove.
pub open spec fn override_z(name: Seq<char>, o: ConsolidatorOverride) -> Seq<u8> {
    str_z(name) + env_pairs_z(o.extra_rust_env_vars.entries@) + env_pairs_z(
        o.extra_build_script_env_vars.entries@,
    ) + kv_list_z(o.extra_bazel_deps.entries@) + kv_list_z(o.extra_bazel_data_deps.entries@)
        + kv_list_z(o.extra_build_script_bazel_deps.entries@) + kv_list_z(
        o.extra_build_script_bazel_data_deps.entries@,
    ) + features_z(o.features_to_remove@)
}

/// All overrides, in map order.
pub open spec fn overrides_z(s: Seq<(String, ConsolidatorOverride)>) -> Seq<u8>
    decreases s.len(),
{
    if s.len() == 0 {
        Seq::empty()
    } else {
        overrides_z(s.drop_last()) + override_z(s.last().0@, s.last().1)
    }
}

/// Whether an environment variable takes part in the hash: the upstream
/// ecosystem's `CARGO` prefix selects it, except the cache location
/// `CARGO_HOME` and the transport switch `CARGO_NET_GIT_FETCH_WITH_CLI`.
pub open spec fn env_kept(name: Seq<char>) -> bool {
    &&& name.len() >= 5
    &&& name.subrange(0, 5) == "CARGO"@
    &&& name != "CARGO_HOME"@
    &&& name != "CARGO_NET_GIT_FETCH_WITH_CLI"@
}

/// The hashed subset of an environment snapshot, order kept.
pub open spec fn filter_env(s: Seq<(String, String)>) -> Seq<(String, String)>
    decreases s.len(),
{
    if s.len() == 0 {
        Seq::empty()
    } else if env_kept(s.last().0@) {
        filter_env(s.drop_last()).push(s.last())
    } else {
        filter_env(s.drop_last())
    }
}

/// The canonical byte stream that is hashed: tool version, URL template,
/// resolver version, target triples, the label-to-crates map, the overrides,
/// the hashed environment variables, and the merged manifest.
pub open spec fn digest_stream(
    tool: Seq<u8>,
    template: Seq<char>,
    cargo_ver: Seq<u8>,
    triples: Seq<String>,
    label_to_crates: Seq<(String, Vec<String>)>,
    overrides: Seq<(String, ConsolidatorOverride)>,
    env: Seq<(String, String)>,
    manifest: Seq<char>,
) -> Seq<u8> {
    tool + z() + encode_utf8(template) + z() + cargo_ver + z() + strings_z(triples) + z()
        + kv_list_z(label_to_crates) + overrides_z(overrides) + env_pairs_z(filter_env(env))
        + encode_utf8(manifest) + z()
}

pub uninterp spec fn sha256_of(bytes: Seq<u8>) -> Seq<u8>;

/// The lowercase hexadecimal character for one value below sixteen.
pub open spec fn hex_char(d: u8) -> char {
    if d == 0 {
        '0'
    } else if d == 1 {
        '1'
    } else if d == 2 {
        '2'
    } else if d == 3 {
        '3'
    } else if d == 4 {
        '4'
    } else if d == 5 {
        '5'
    } else if d == 6 {
        '6'
    } else if d == 7 {
        '7'
    } else if d == 8 {
        '8'
    } else if d == 9 {
        '9'
    } else if d == 10 {
        'a'
    } else if d == 11 {
        'b'
    } else if d == 12 {
        'c'
    } else if d == 13 {
        'd'
    } else if d == 14 {
        'e'
    } else {
        'f'
    }
}

/// Lowercase hex encoding: two digits for each byte, high nibble first.
pub open spec fn hex_of(b: Seq<u8>) -> Seq<char> {
    Seq::new(
        2 * b.len(),
        |i: int|
            if i % 2 == 0 {
                hex_char(b[i / 2] >> 4u8)
            } else {
                hex_char(b[i / 2] & 0x0fu8)
            },
    )
}

/// Relies on sha2::Sha256, the FIPS 180-4 SHA-256 digest: 32 bytes depending
/// on the input bytes alone.
#[verifier::external_body]
fn sha256(bytes: &Vec<u8>) -> (r: Vec<u8>)
    ensures
        r@ == sha256_of(bytes@),
        r@.len() == 32,
{
    sha2::Sha256::digest(bytes.as_slice()).to_vec()
}

/// The lowercase hex digit for one value below sixteen, as a one-character
/// string.
fn nibble_str(d: u8) -> (r: &'static str)
    requires
        d < 16,
    ensures
        r@ == seq![hex_char(d)],
{
    proof {
        reveal_strlit("0");
        reveal_strlit("1");
        reveal_strlit("2");
        reveal_strlit("3");
        reveal_strlit("4");
        reveal_strlit("5");
        reveal_strlit("6");
        reveal_strlit("7");
        reveal_strlit("8");
        reveal_strlit("9");
        reveal_strlit("a");
        reveal_strlit("b");
        reveal_strlit("c");
        reveal_strlit("d");
        reveal_strlit("e");
        reveal_strlit("f");
    }
    if d == 0 {
        "0"
    } else if d == 1 {
        "1"
    } else if d == 2 {
        "2"
    } else if d == 3 {
        "3"
    } else if d == 4 {
        "4"
    } else if d == 5 {
        "5"
    } else if d == 6 {
        "6"
    } else if d == 7 {
        "7"
    } else if d == 8 {
        "8"
    } else if d == 9 {
        "9"
    } else if d == 10 {
        "a"
    } else if d == 11 {
        "b"
    } else if d == 12 {
        "c"
    } else if d == 13 {
        "d"
    } else if d == 14 {
        "e"
    } else {
        "f"
    }
}

/// Lowercase hex encoding of the bytes: two digits per byte, high nibble
/// first.
fn hex_encode(bytes: &Vec<u8>) -> (r: String)
    ensures
        r@ == hex_of(bytes@),
{
    let n = bytes.len();
    let mut out = String::new();
    let mut i: usize = 0;
    while i < n
        invariant
            i <= n,
            n == bytes@.len(),
            out@.len() == 2 * i,
            forall|k: int| 0 <= k < 2 * i ==> out@[k] == hex_of(bytes@)[k],
        decreases n - i,
    {
        let b = bytes[i];
        let hi = b >> 4;
        let lo = b & 0x0f;
        proof {
            assert(hi < 16 && lo < 16) by (bit_vector)
                requires
                    hi == b >> 4,
                    lo == b & 0x0f,
            ;
        }
        out.append(nibble_str(hi));
        out.append(nibble_str(lo));
        proof {
            assert(out@[2 * i as int] == hex_char(bytes@[i as int] >> 4u8));
            assert(out@[2 * i + 1] == hex_char(bytes@[i as int] & 0x0fu8));
            assert forall|k: int| 0 <= k < 2 * (i + 1) implies out@[k] == hex_of(bytes@)[k] by {
                if k < 2 * i {
                } else if k == 2 * i {
                    assert(k % 2 == 0 && k / 2 == i as int);
                } else {
                    assert(k % 2 == 1 && k / 2 == i as int);
                }
            }
        }
        i = i + 1;
    }
    proof {
        assert(out@ =~= hex_of(bytes@));
    }
    out
}

/// Appends a string's bytes and the separator.
fn push_str_z(out: &mut Vec<u8>, s: &str)
    ensures
        final(out)@ == old(out)@ + str_z(s@),
{
    let ghost base = out@;
    out.extend_from_slice(s.as_bytes());
    out.push(0u8);
    proof {
        assert(final(out)@ =~= base + str_z(s@));
    }
}

/// Appends each string, separator-terminated.
fn push_strings_z(out: &mut Vec<u8>, v: &Vec<String>)
    ensures
        final(out)@ == old(out)@ + strings_z(v@),
{
    let ghost base = out@;
    let n = v.len();
    let mut i: usize = 0;
    proof {
        assert(v@.subrange(0, 0) =~= Seq::<String>::empty());
        assert(out@ =~= base + strings_z(v@.subrange(0, 0)));
    }
    while i < n
        invariant
            i <= n,
            n == v@.len(),
            out@ == base + strings_z(v@.subrange(0, i as int)),
        decreases n - i,
    {
        push_str_z(out, v[i].as_str());
        proof {
            assert(v@.subrange(0, i + 1).drop_last() =~= v@.subrange(0, i as int));
            assert(v@.subrange(0, i + 1).last() == v@[i as int]);
            assert((base + strings_z(v@.subrange(0, i as int))) + str_z(v@[i as int]@) =~= base
                + strings_z(v@.subrange(0, i + 1)));
        }
        i = i + 1;
    }
    proof {
        assert(v@.subrange(0, n as int) =~= v@);
    }
}

/// Appends key-value pairs as `key NUL value NUL`.
fn push_env_pairs_z(out: &mut Vec<u8>, v: &Vec<(String, String)>)
    ensures
        final(out)@ == old(out)@ + env_pairs_z(v@),
{
    let ghost base = out@;
    let n = v.len();
    let mut i: usize = 0;
    proof {
        assert(v@.subrange(0, 0) =~= Seq::<(String, String)>::empty());
        assert(out@ =~= base + env_pairs_z(v@.subrange(0, 0)));
    }
    while i < n
        invariant
            i <= n,
            n == v@.len(),
            out@ == base + env_pairs_z(v@.subrange(0, i as int)),
        decreases n - i,
    {
        let ghost mid = out@;
        push_str_z(out, v[i].0.as_str());
        push_str_z(out, v[i].1.as_str());
        proof {
            assert(v@.subrange(0, i + 1).drop_last() =~= v@.subrange(0, i as int));
            assert(v@.subrange(0, i + 1).last() == v@[i as int]);
            assert(out@ =~= (mid + str_z(v@[i as int].0@)) + str_z(v@[i as int].1@));
            assert(out@ =~= base + env_pairs_z(v@.subrange(0, i + 1)));
        }
        i = i + 1;
    }
    proof {
        assert(v@.subrange(0, n as int) =~= v@);
    }
}

/// Appends a keyed string list: `key NUL` then each string `NUL`-terminated.
fn push_kv_list_z(out: &mut Vec<u8>, v: &Vec<(String, Vec<String>)>)
    ensures
        final(out)@ == old(out)@ + kv_list_z(v@),
{
    let ghost base = out@;
    let n = v.len();
    let mut i: usize = 0;
    proof {
        assert(v@.subrange(0, 0) =~= Seq::<(String, Vec<String>)>::empty());
        assert(out@ =~= base + kv_list_z(v@.subrange(0, 0)));
    }
    while i < n
        invariant
            i <= n,
            n == v@.len(),
            out@ == base + kv_list_z(v@.subrange(0, i as int)),
        decreases n - i,
    {
        let ghost mid = out@;
        push_str_z(out, v[i].0.as_str());
        push_strings_z(out, &v[i].1);
        proof {
            assert(v@.subrange(0, i + 1).drop_last() =~= v@.subrange(0, i as int));
            assert(v@.subrange(0, i + 1).last() == v@[i as int]);
            assert(out@ =~= (mid + str_z(v@[i as int].0@)) + strings_z(v@[i as int].1@));
            assert(out@ =~= base + kv_list_z(v@.subrange(0, i + 1)));
        }
        i = i + 1;
    }
    proof {
        assert(v@.subrange(0, n as int) =~= v@);
    }
}

/// Appends feature names, separator-terminated.
fn push_features_z(out: &mut Vec<u8>, v: &Vec<String>)
    ensures
        final(out)@ == old(out)@ + features_z(v@),
{
    let ghost base = out@;
    let n = v.len();
    let mut i: usize = 0;
    proof {
        assert(v@.subrange(0, 0) =~= Seq::<String>::empty());
        assert(out@ =~= base + features_z(v@.subrange(0, 0)));
    }
    while i < n
        invariant
            i <= n,
            n == v@.len(),
            out@ == base + features_z(v@.subrange(0, i as int)),
        decreases n - i,
    {
        push_str_z(out, v[i].as_str());
        proof {
            assert(v@.subrange(0, i + 1).drop_last() =~= v@.subrange(0, i as int));
            assert(v@.subrange(0, i + 1).last() == v@[i as int]);
            assert(out@ =~= base + features_z(v@.subrange(0, i + 1)));
        }
        i = i + 1;
    }
    proof {
        assert(v@.subrange(0, n as int) =~= v@);
    }
}

/// Appends one override's contribution.
#[verifier::rlimit(60)]
fn push_override_z(out: &mut Vec<u8>, name: &str, o: &ConsolidatorOverride)
    ensures
        final(out)@ == old(out)@ + override_z(name@, *o),
{
    let ghost base = out@;
    push_str_z(out, name);
    push_env_pairs_z(out, &o.extra_rust_env_vars.entries);
    push_env_pairs_z(out, &o.extra_build_script_env_vars.entries);
    push_kv_list_z(out, &o.extra_bazel_deps.entries);
    push_kv_list_z(out, &o.extra_bazel_data_deps.entries);
    push_kv_list_z(out, &o.extra_build_script_bazel_deps.entries);
    push_kv_list_z(out, &o.extra_build_script_bazel_data_deps.entries);
    push_features_z(out, &o.features_to_remove);
    proof {
        assert(out@ =~= base + override_z(name@, *o));
    }
}

/// Appends every override in map order.
fn push_overrides_z(out: &mut Vec<u8>, v: &Vec<(String, ConsolidatorOverride)>)
    ensures
        final(out)@ == old(out)@ + overrides_z(v@),
{
    let ghost base = out@;
    let n = v.len();
    let mut i: usize = 0;
    proof {
        assert(v@.subrange(0, 0) =~= Seq::<(String, ConsolidatorOverride)>::empty());
        assert(out@ =~= base + overrides_z(v@.subrange(0, 0)));
    }
    while i < n
        invariant
            i <= n,
            n == v@.len(),
            out@ == base + overrides_z(v@.subrange(0, i as int)),
        decreases n - i,
    {
        let ghost mid = out@;
        push_override_z(out, v[i].0.as_str(), &v[i].1);
        proof {
            assert(v@.subrange(0, i + 1).drop_last() =~= v@.subrange(0, i as int));
            assert(v@.subrange(0, i + 1).last() == v@[i as int]);
            assert(out@ =~= base + overrides_z(v@.subrange(0, i + 1)));
        }
        i = i + 1;
    }
    proof {
        assert(v@.subrange(0, n as int) =~= v@);
    }
}

/// Whether this environment variable takes part in the hash.
pub fn is_hashed_env_var(name: &str) -> (r: bool)
    ensures
        r == env_kept(name@),
{
    let n = name.unicode_len();
    if n < 5 {
        return false;
    }
    let prefix = name.substring_char(0, 5);
    if !str_eq(prefix, "CARGO") {
        return false;
    }
    if str_eq(name, "CARGO_HOME") {
        return false;
    }
    if str_eq(name, "CARGO_NET_GIT_FETCH_WITH_CLI") {
        return false;
    }
    true
}

/// The hashed subset of an environment snapshot, order kept. The caller
/// warns about each variable this returns.
pub fn filter_env_vars(env: &Vec<(String, String)>) -> (r: Vec<(String, String)>)
    ensures
        r@ == filter_env(env@),
{
    let n = env.len();
    let mut out: Vec<(String, String)> = Vec::new();
    let mut i: usize = 0;
    proof {
        assert(env@.subrange(0, 0) =~= Seq::<(String, String)>::empty());
        assert(out@ =~= filter_env(env@.subrange(0, 0)));
    }
    while i < n
        invariant
            i <= n,
            n == env@.len(),
            out@ == filter_env(env@.subrange(0, i as int)),
        decreases n - i,
    {
        if is_hashed_env_var(env[i].0.as_str()) {
            let k0 = env[i].0.clone();
            let v0 = env[i].1.clone();
            out.push((k0, v0));
            proof {
                assert((env@[i as int].0, env@[i as int].1) == env@[i as int]);
            }
        }
        proof {
            assert(env@.subrange(0, i + 1).drop_last() =~= env@.subrange(0, i as int));
            assert(env@.subrange(0, i + 1).last() == env@[i as int]);
            assert(out@ =~= filter_env(env@.subrange(0, i + 1)));
        }
        i = i + 1;
    }
    proof {
        assert(env@.subrange(0, n as int) =~= env@);
    }
    out
}

/// Computes the lockfile hash: the hex-encoded SHA-256 of the canonical
/// stream over every hashed input.
pub fn compute_digest(
    tool: &Vec<u8>,
    template: &String,
    cargo_ver: &Vec<u8>,
    triples: &Vec<String>,
    label_to_crates: &Dict<Vec<String>>,
    overrides: &Dict<ConsolidatorOverride>,
    env: &Vec<(String, String)>,
    manifest: &String,
) -> (r: String)
    ensures
        r@ == hex_of(
            sha256_of(
                digest_stream(
                    tool@,
                    template@,
                    cargo_ver@,
                    triples@,
                    label_to_crates.entries@,
                    overrides.entries@,
                    env@,
                    manifest@,
                ),
            ),
        ),
        r@.len() == 64,
{
    let mut out: Vec<u8> = Vec::new();
    out.extend_from_slice(tool.as_slice());
    out.push(0u8);
    push_str_z(&mut out, template.as_str());
    out.extend_from_slice(cargo_ver.as_slice());
    out.push(0u8);
    push_strings_z(&mut out, triples);
    out.push(0u8);
    push_kv_list_z(&mut out, &label_to_crates.entries);
    push_overrides_z(&mut out, &overrides.entries);
    let kept = filter_env_vars(env);
    push_env_pairs_z(&mut out, &kept);
    push_str_z(&mut out, manifest.as_str());
    proof {
        assert(out@ =~= digest_stream(
            tool@,
            template@,
            cargo_ver@,
            triples@,
            label_to_crates.entries@,
            overrides.entries@,
            env@,
            manifest@,
        ));
    }
    let h = sha256(&out);
    hex_encode(&h)
}

} // verus!
