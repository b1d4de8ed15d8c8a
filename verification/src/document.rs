//! Renders the consolidated model into the build tool's declarative text.
//! The model arrives fully ordered and named; this module fixes the document
//! byte for byte: the digest header, the load statements, one archive fetch
//! per crate in model order, each crate's build-file content, the
//! target-name table, and the helper functions.
use crate::config::{crate_to_repo_rule_name, repo_rule_name_spec, sanitize_dep_name, sanitized_name};
use crate::consolidator::{ConsolidatedModel, CrateSpec};
use crate::merger::{append_quoted, feature_items, quoted};
use crate::model::{BuildTarget, PackageSource, TargetKind};
use crate::platform::{DepGroup, Selector};
use crate::strutil::str_eq;
use vstd::prelude::*;
use vstd::string::*;

verus! {

/// Every occurrence of `pat` in `s` replaced by `rep`, scanning left to
/// right without re-scanning replacements.
pub open spec fn replace_all(s: Seq<char>, pat: Seq<char>, rep: Seq<char>) -> Seq<char>
    decreases s.len(),
{
    if pat.len() == 0 || s.len() < pat.len() {
        s
    } else if s.subrange(0, pat.len() as int) == pat {
        rep + replace_all(s.skip(pat.len() as int), pat, rep)
    } else {
        seq![s[0]] + replace_all(s.drop_first(), pat, rep)
    }
}

/// The archive URL: the template with its two tokens substituted.
pub open spec fn url_of(template: Seq<char>, name: Seq<char>, version: Seq<char>) -> Seq<char> {
    replace_all(replace_all(template, "{name}"@, name), "{version}"@, version)
}

/// Replaces every occurrence of `pat` in `s` by `rep`.
pub fn replace_all_str(s: &str, pat: &str, rep: &str) -> (r: String)
    requires
        pat@.len() > 0,
    ensures
        r@ == replace_all(s@, pat@, rep@),
{
    let n = s.unicode_len();
    let plen = pat.unicode_len();
    let mut out = String::new();
    let mut i: usize = 0;
    proof {
        assert(s@.subrange(0, n as int) =~= s@);
        assert(out@ + replace_all(s@.subrange(i as int, n as int), pat@, rep@) =~= replace_all(
            s@,
            pat@,
            rep@,
        ));
    }
    while i < n
        invariant
            i <= n,
            n == s@.len(),
            plen == pat@.len(),
            plen > 0,
            out@ + replace_all(s@.subrange(i as int, n as int), pat@, rep@) == replace_all(
                s@,
                pat@,
                rep@,
            ),
        decreases n - i,
    {
        let ghost suffix = s@.subrange(i as int, n as int);
        if plen <= n - i && str_eq(s.substring_char(i, i + plen), pat) {
            proof {
                assert(suffix.subrange(0, plen as int) =~= s@.subrange(i as int, (i + plen) as int));
                assert(suffix.skip(plen as int) =~= s@.subrange((i + plen) as int, n as int));
            }
            out.append(rep);
            i = i + plen;
        } else {
            proof {
                if plen <= n - i {
                    assert(suffix.subrange(0, plen as int) =~= s@.subrange(
                        i as int,
                        (i + plen) as int,
                    ));
                }
                assert(suffix.drop_first() =~= s@.subrange(i + 1, n as int));
                assert(seq![suffix[0]] =~= s@.subrange(i as int, i + 1));
                assert(suffix =~= seq![suffix[0]] + suffix.drop_first());
            }
            let c = s.substring_char(i, i + 1);
            out.append(c);
            i = i + 1;
        }
    }
    proof {
        assert(s@.subrange(n as int, n as int) =~= Seq::<char>::empty());
        assert(out@ =~= replace_all(s@, pat@, rep@));
    }
    out
}

/// The textual selector key of one group.
pub open spec fn selector_text_of(s: Selector) -> Seq<char> {
    match s {
        Selector::Default => "\"//conditions:default\""@,
        Selector::Subset(ts) => "("@ + feature_items(ts@) + ")"@,
    }
}

/// One group's line inside a `selects.with_or` table.
pub open spec fn group_line(g: DepGroup) -> Seq<char> {
    "            "@ + selector_text_of(g.selector) + ": ["@ + feature_items(g.labels@) + "],\n"@
}

/// All the group lines, in order.
pub open spec fn groups_text(gs: Seq<DepGroup>) -> Seq<char>
    decreases gs.len(),
{
    if gs.len() == 0 {
        Seq::empty()
    } else {
        groups_text(gs.drop_last()) + group_line(gs.last())
    }
}

/// Whether some group already keys the unconditional arm.
pub open spec fn has_default_group(gs: Seq<DepGroup>) -> bool {
    exists|g: int| 0 <= g < gs.len() && (#[trigger] gs[g]).selector is Default
}

/// The empty unconditional arm every selector table closes with, unless an
/// unconditional group already keys it.
pub open spec fn default_arm(gs: Seq<DepGroup>) -> Seq<char> {
    if has_default_group(gs) {
        Seq::<char>::empty()
    } else {
        "            \"//conditions:default\": [],\n"@
    }
}

/// The body of one selector table: the group lines and the closing
/// unconditional arm.
pub open spec fn select_body(gs: Seq<DepGroup>) -> Seq<char> {
    groups_text(gs) + default_arm(gs)
}

/// One dependency attribute: nothing where there is no group, else the
/// selector table.
pub open spec fn attr_block(attr: Seq<char>, gs: Seq<DepGroup>) -> Seq<char> {
    if gs.len() == 0 {
        Seq::empty()
    } else {
        "        "@ + attr + " = selects.with_or({\n"@ + select_body(gs) + "        }),\n"@
    }
}

/// `"k": "v"` pairs, comma-joined.
pub open spec fn env_items(s: Seq<(String, String)>) -> Seq<char>
    decreases s.len(),
{
    if s.len() == 0 {
        Seq::empty()
    } else if s.len() == 1 {
        quoted(s[0].0@) + ": "@ + quoted(s[0].1@)
    } else {
        env_items(s.drop_last()) + ", "@ + quoted(s.last().0@) + ": "@ + quoted(s.last().1@)
    }
}

/// The comment stubs for the targets the generator omits.
pub open spec fn unsupported_lines(s: Seq<(String, String)>) -> Seq<char>
    decreases s.len(),
{
    if s.len() == 0 {
        Seq::empty()
    } else {
        unsupported_lines(s.drop_last()) + "# Unsupported target "@ + quoted(s.last().0@)
            + " with type "@ + quoted(s.last().1@) + " omitted\n"@
    }
}

/// The build-script environment attribute, absent where the map is empty.
pub open spec fn bs_env_attr(s: Seq<(String, String)>) -> Seq<char> {
    if s.len() == 0 {
        Seq::<char>::empty()
    } else {
        "    build_script_env = {"@ + env_items(s) + "},\n"@
    }
}

/// The crate-root path of the first target of the wanted kind, or the
/// conventional default.
pub open spec fn first_root(ts: Seq<BuildTarget>, k: TargetKind, dflt: Seq<char>) -> Seq<char>
    decreases ts.len(),
{
    if ts.len() == 0 {
        dflt
    } else if ts[0].kind == k {
        ts[0].crate_root@
    } else {
        first_root(ts.drop_first(), k, dflt)
    }
}

/// The keyword of the crate's main rule.
pub open spec fn rule_keyword(k: TargetKind) -> Seq<char> {
    match k {
        TargetKind::ProcMacro => "rust_proc_macro"@,
        TargetKind::Binary => "rust_binary"@,
        _ => "rust_library"@,
    }
}

/// The opening of the crate's build-script rule.
pub open spec fn bs_head_of(cs: CrateSpec) -> Seq<char> {
    "cargo_build_script(\n    name = \""@ + sanitized_name(cs.name@) + "_build_script\",\n"@
        + "    srcs = glob([\"**/*.rs\"]),\n"@ + "    crate_root = \""@ + first_root(
        cs.targets@,
        TargetKind::BuildScript,
        "build.rs"@,
    ) + "\",\n"@ + (match cs.links {
        Some(l) => "    links = \""@ + l@ + "\",\n"@,
        None => Seq::<char>::empty(),
    })
}

/// The crate's build-script rule, where it has one.
pub open spec fn bs_rule_of(cs: CrateSpec) -> Seq<char> {
    bs_head_of(cs) + attr_block("deps"@, cs.build_deps@) + attr_block("data"@, cs.build_data_deps@)
        + bs_env_attr(cs.build_script_env.entries@) + ")\n\n"@
}

/// The features attribute, absent where the set is empty.
pub open spec fn features_attr(fs: Seq<String>) -> Seq<char> {
    if fs.len() == 0 {
        Seq::empty()
    } else {
        "    crate_features = ["@ + feature_items(fs) + "],\n"@
    }
}

/// The `rustc_env` attribute, absent where the map is empty.
pub open spec fn rustc_env_attr(s: Seq<(String, String)>) -> Seq<char> {
    if s.len() == 0 {
        Seq::empty()
    } else {
        "    rustc_env = {"@ + env_items(s) + "},\n"@
    }
}

/// The `aliases` attribute, mapped under the unconditional arm of a select;
/// absent where the table is empty.
pub open spec fn aliases_attr(s: Seq<(String, String)>) -> Seq<char> {
    if s.len() == 0 {
        Seq::empty()
    } else {
        "    aliases = select({\n        \"//conditions:default\": {"@ + env_items(s)
            + "},\n    }),\n"@
    }
}

/// The fixed load statements, package header and license comment of one
/// build file.
pub open spec fn bf_header_of(cs: CrateSpec) -> Seq<char> {
    "load(\"@bazel_skylib//lib:selects.bzl\", \"selects\")\nload(\"@io_bazel_rules_rust//rust:rust.bzl\", \"rust_library\", \"rust_binary\", \"rust_proc_macro\")\nload(\"@io_bazel_rules_rust//cargo:cargo_build_script.bzl\", \"cargo_build_script\")\n\n"@
        + "package(default_visibility = [\"//visibility:public\"])\n\n"@ + "# license: "@
        + cs.license@ + "\n\n"@
}

/// The opening of the crate's main rule.
pub open spec fn rule_head_of(cs: CrateSpec) -> Seq<char> {
    rule_keyword(cs.kind) + "(\n    name = \""@ + sanitized_name(cs.name@) + "\",\n"@
        + "    srcs = glob([\"**/*.rs\"]),\n"@ + "    crate_root = \""@ + first_root(
        cs.targets@,
        cs.kind,
        "src/lib.rs"@,
    ) + "\",\n"@
}

/// The main rule's `deps` attribute: one attribute holding the build-script
/// target first, then the grouped dependency labels.
pub open spec fn main_deps_attr(cs: CrateSpec) -> Seq<char> {
    if cs.has_build_script {
        if cs.deps@.len() == 0 {
            "        deps = [\":"@ + sanitized_name(cs.name@) + "_build_script\"],\n"@
        } else {
            "        deps = [\":"@ + sanitized_name(cs.name@)
                + "_build_script\"] + selects.with_or({\n"@ + select_body(cs.deps@)
                + "        }),\n"@
        }
    } else {
        attr_block("deps"@, cs.deps@)
    }
}

/// The rule's dependency, feature, environment and alias attributes.
pub open spec fn attrs_of(cs: CrateSpec) -> Seq<char> {
    main_deps_attr(cs) + attr_block("data"@, cs.data_deps@) + features_attr(cs.features@)
        + rustc_env_attr(cs.rustc_env.entries@) + aliases_attr(cs.aliases.entries@)
}

/// The rule's closing lines and the trailing comment stubs.
pub open spec fn rule_tail_of(cs: CrateSpec) -> Seq<char> {
    "    version = \""@ + cs.version@ + "\",\n    edition = \""@ + cs.edition@ + "\",\n)\n"@
        + unsupported_lines(cs.unsupported_targets@)
}

/// The crate's main rule and trailing comment stubs.
pub open spec fn main_rule_of(cs: CrateSpec) -> Seq<char> {
    rule_head_of(cs) + attrs_of(cs) + rule_tail_of(cs)
}

/// One crate's whole build-file content.
pub open spec fn build_file_of(cs: CrateSpec) -> Seq<char> {
    bf_header_of(cs) + (if cs.has_build_script {
        bs_rule_of(cs)
    } else {
        Seq::<char>::empty()
    }) + main_rule_of(cs)
}

/// One crate's archive-fetch block.
pub open spec fn block_of(cs: CrateSpec, template: Seq<char>) -> Seq<char> {
    match cs.source {
        PackageSource::Registry => "    http_archive(\n        name = \""@ + repo_rule_name_spec(
            cs.name@,
            cs.version@,
        ) + "\",\n        url = \""@ + url_of(template, cs.name@, cs.version@)
            + "\",\n        type = \"tar.gz\",\n        strip_prefix = \""@ + cs.name@ + "-"@
            + cs.version@ + "\",\n        build_file_content = \"\"\""@ + build_file_of(cs)
            + "\"\"\",\n    )\n\n"@,
        PackageSource::Git { remote, commit, path_in_repo } => "    new_git_repository(\n        name = \""@
            + repo_rule_name_spec(cs.name@, cs.version@) + "\",\n        remote = \""@ + remote@
            + "\",\n        commit = \""@ + commit@ + "\",\n        strip_prefix = \""@
            + path_in_repo@ + "\",\n        build_file_content = \"\"\""@ + build_file_of(cs)
            + "\"\"\",\n    )\n\n"@,
    }
}

/// All the archive blocks, in model order.
pub open spec fn blocks_of(crates: Seq<CrateSpec>, template: Seq<char>) -> Seq<char>
    decreases crates.len(),
{
    if crates.len() == 0 {
        Seq::empty()
    } else {
        blocks_of(crates.drop_last(), template) + block_of(crates.last(), template)
    }
}

/// The rows of the target-name table.
pub open spec fn names_table(s: Seq<(String, String)>) -> Seq<char>
    decreases s.len(),
{
    if s.len() == 0 {
        Seq::empty()
    } else {
        names_table(s.drop_last()) + "    "@ + quoted(s.last().0@) + ": "@ + quoted(s.last().1@)
            + ",\n"@
    }
}

/// The rows of the label-to-crates table.
pub open spec fn labels_table(s: Seq<(String, Vec<String>)>) -> Seq<char>
    decreases s.len(),
{
    if s.len() == 0 {
        Seq::empty()
    } else {
        labels_table(s.drop_last()) + "    "@ + quoted(s.last().0@) + ": ["@ + feature_items(
            s.last().1@,
        ) + "],\n"@
    }
}

/// The fixed load statements.
pub open spec fn loads_text() -> Seq<char> {
    "load(\"@bazel_tools//tools/build_defs/repo:http.bzl\", \"http_archive\")\nload(\"@bazel_tools//tools/build_defs/repo:git.bzl\", \"new_git_repository\")\n\n"@
}

/// The fixed helper functions after the target-name table.
pub open spec fn helpers_one() -> Seq<char> {
    "def crate(crate_name):\n    \"\"\"The fully qualified label of the requested crate.\"\"\"\n    if crate_name not in CRATE_TARGET_NAMES:\n        fail(\"Unknown crate: \" + crate_name)\n    return CRATE_TARGET_NAMES[crate_name]\n\ndef all_deps():\n    return [crate(name) for name in CRATE_TARGET_NAMES.keys()]\n\ndef all_proc_macro_deps():\n    return [crate(name) for name in PROC_MACRO_CRATE_NAMES]\n\n"@
}

/// The fixed helper functions after the label table.
pub open spec fn helpers_two() -> Seq<char> {
    "def crates_from(label):\n    return [crate(name) for name in LABEL_TO_CRATES[_absolutify(label)]]\n\ndef proc_macro_crates_from(label):\n    return [crate(name) for name in LABEL_TO_CRATES[_absolutify(label)] if name in PROC_MACRO_CRATE_NAMES]\n\ndef _absolutify(label):\n    if label.startswith(\"//\") or label.startswith(\"@\"):\n        return label\n    if label.startswith(\":\"):\n        return \"//\" + native.package_name() + label\n    return \"//\" + native.package_name() + \":\" + label\n"@
}

/// The whole rendered document.
pub open spec fn document_of(m: ConsolidatedModel) -> Seq<char> {
    "# digest: "@ + m.digest@ + "\n\n"@ + loads_text() + "def pinned_rust_install():\n"@ + (
    if m.crates@.len() == 0 {
        "    pass\n"@
    } else {
        Seq::<char>::empty()
    }) + blocks_of(m.crates@, m.render_config.repository_template@)
        + "CRATE_TARGET_NAMES = {\n"@ + names_table(m.target_names@) + "}\n\n"@
        + "PROC_MACRO_CRATE_NAMES = ["@ + feature_items(m.proc_macro_names@) + "]\n\n"@
        + helpers_one() + "LABEL_TO_CRATES = {\n"@ + labels_table(m.label_to_crates.entries@)
        + "}\n\n"@ + helpers_two()
}

/// Appends the comma-joined quoted items.
fn append_items(out: &mut String, v: &Vec<String>)
    ensures
        final(out)@ == old(out)@ + feature_items(v@),
{
    let ghost base = out@;
    let n = v.len();
    let mut j: usize = 0;
    proof {
        assert(v@.subrange(0, 0) =~= Seq::<String>::empty());
        assert(out@ =~= base + feature_items(v@.subrange(0, 0)));
    }
    while j < n
        invariant
            j <= n,
            n == v@.len(),
            out@ == base + feature_items(v@.subrange(0, j as int)),
        decreases n - j,
    {
        if j > 0 {
            out.append(", ");
        }
        append_quoted(out, v[j].as_str());
        proof {
            assert(v@.subrange(0, j + 1).drop_last() =~= v@.subrange(0, j as int));
            assert(v@.subrange(0, j + 1).last() == v@[j as int]);
            if j == 0 {
                assert(v@.subrange(0, 1).len() == 1);
                assert(v@.subrange(0, 1)[0] == v@[0]);
                assert(out@ =~= base + feature_items(v@.subrange(0, 1)));
            } else {
                assert(out@ =~= base + feature_items(v@.subrange(0, j + 1)));
            }
        }
        j = j + 1;
    }
    proof {
        assert(v@.subrange(0, n as int) =~= v@);
    }
}

/// Appends the comma-joined `"k": "v"` pairs.
fn append_env_items(out: &mut String, v: &Vec<(String, String)>)
    ensures
        final(out)@ == old(out)@ + env_items(v@),
{
    let ghost base = out@;
    let n = v.len();
    let mut j: usize = 0;
    proof {
        assert(v@.subrange(0, 0) =~= Seq::<(String, String)>::empty());
        assert(out@ =~= base + env_items(v@.subrange(0, 0)));
    }
    while j < n
        invariant
            j <= n,
            n == v@.len(),
            out@ == base + env_items(v@.subrange(0, j as int)),
        decreases n - j,
    {
        if j > 0 {
            out.append(", ");
        }
        append_quoted(out, v[j].0.as_str());
        out.append(": ");
        append_quoted(out, v[j].1.as_str());
        proof {
            assert(v@.subrange(0, j + 1).drop_last() =~= v@.subrange(0, j as int));
            assert(v@.subrange(0, j + 1).last() == v@[j as int]);
            if j == 0 {
                assert(v@.subrange(0, 1).len() == 1);
                assert(v@.subrange(0, 1)[0] == v@[0]);
                assert(out@ =~= base + env_items(v@.subrange(0, 1)));
            } else {
                assert(out@ =~= base + env_items(v@.subrange(0, j + 1)));
            }
        }
        j = j + 1;
    }
    proof {
        assert(v@.subrange(0, n as int) =~= v@);
    }
}

/// Whether some group keys the unconditional arm.
fn groups_have_default(gs: &Vec<DepGroup>) -> (r: bool)
    ensures
        r == has_default_group(gs@),
{
    let n = gs.len();
    let mut g: usize = 0;
    while g < n
        invariant
            g <= n,
            n == gs@.len(),
            forall|j: int| 0 <= j < g ==> !((#[trigger] gs@[j]).selector is Default),
        decreases n - g,
    {
        match &gs[g].selector {
            Selector::Default => {
                return true;
            },
            Selector::Subset(_) => {},
        }
        g = g + 1;
    }
    false
}

/// Appends one selector table's body: the group lines and the closing
/// unconditional arm.
fn append_select_body(out: &mut String, gs: &Vec<DepGroup>)
    ensures
        final(out)@ == old(out)@ + select_body(gs@),
{
    let ghost gbase = out@;
    let n = gs.len();
    let mut g: usize = 0;
    proof {
        assert(gs@.subrange(0, 0) =~= Seq::<DepGroup>::empty());
        assert(out@ =~= gbase + groups_text(gs@.subrange(0, 0)));
    }
    while g < n
        invariant
            g <= n,
            n == gs@.len(),
            out@ == gbase + groups_text(gs@.subrange(0, g as int)),
        decreases n - g,
    {
        let ghost mid = out@;
        out.append("            ");
        match &gs[g].selector {
            Selector::Default => {
                out.append("\"//conditions:default\"");
            },
            Selector::Subset(ts) => {
                out.append("(");
                append_items(out, ts);
                out.append(")");
            },
        }
        out.append(": [");
        append_items(out, &gs[g].labels);
        out.append("],\n");
        proof {
            assert(gs@.subrange(0, g + 1).drop_last() =~= gs@.subrange(0, g as int));
            assert(gs@.subrange(0, g + 1).last() == gs@[g as int]);
            assert(out@ =~= mid + group_line(gs@[g as int]));
            assert(out@ =~= gbase + groups_text(gs@.subrange(0, g + 1)));
        }
        g = g + 1;
    }
    proof {
        assert(gs@.subrange(0, n as int) =~= gs@);
    }
    if !groups_have_default(gs) {
        out.append("            \"//conditions:default\": [],\n");
    }
    proof {
        assert(out@ =~= gbase + select_body(gs@));
    }
}

/// Appends one dependency attribute's selector table.
fn append_attr_block(out: &mut String, attr: &str, gs: &Vec<DepGroup>)
    ensures
        final(out)@ == old(out)@ + attr_block(attr@, gs@),
{
    let ghost base = out@;
    if gs.len() == 0 {
        proof {
            assert(out@ =~= base + attr_block(attr@, gs@));
        }
        return ;
    }
    out.append("        ");
    out.append(attr);
    out.append(" = selects.with_or({\n");
    append_select_body(out, gs);
    out.append("        }),\n");
    proof {
        assert(out@ =~= base + attr_block(attr@, gs@));
    }
}

/// Where the first `i` targets miss the kind, the root is decided at `i`.
proof fn lemma_first_root_at(ts: Seq<BuildTarget>, k: TargetKind, dflt: Seq<char>, i: int)
    requires
        0 <= i <= ts.len(),
        forall|j: int| 0 <= j < i ==> (#[trigger] ts[j]).kind != k,
    ensures
        i < ts.len() && ts[i].kind == k ==> first_root(ts, k, dflt) == ts[i].crate_root@,
        i == ts.len() ==> first_root(ts, k, dflt) == dflt,
    decreases i,
{
    if i > 0 {
        let ts1 = ts.drop_first();
        assert(forall|j: int| 0 <= j < i - 1 ==> (#[trigger] ts1[j]).kind != k);
        lemma_first_root_at(ts1, k, dflt, i - 1);
        assert(ts[0].kind != k);
    }
}

/// The crate-root path of the first target of the wanted kind, or the
/// conventional default.
fn find_root(ts: &Vec<BuildTarget>, k: TargetKind, dflt: &str) -> (r: String)
    ensures
        r@ == first_root(ts@, k, dflt@),
{
    let n = ts.len();
    let mut i: usize = 0;
    while i < n
        invariant
            i <= n,
            n == ts@.len(),
            forall|j: int| 0 <= j < i ==> (#[trigger] ts@[j]).kind != k,
        decreases n - i,
    {
        if ts[i].kind == k {
            proof {
                lemma_first_root_at(ts@, k, dflt@, i as int);
            }
            return ts[i].crate_root.clone();
        }
        i = i + 1;
    }
    proof {
        lemma_first_root_at(ts@, k, dflt@, n as int);
    }
    String::from_str(dflt)
}

/// Appends the crate's build-script rule.
#[verifier::rlimit(100)]
fn append_bs_rule(out: &mut String, cs: &CrateSpec)
    requires
        cs.has_build_script,
    ensures
        final(out)@ == old(out)@ + bs_rule_of(*cs),
{
    let ghost bsbase = out@;
    out.append("cargo_build_script(\n    name = \"");
    out.append(sanitize_dep_name(cs.name.as_str()).as_str());
    out.append("_build_script\",\n");
    out.append("    srcs = glob([\"**/*.rs\"]),\n");
    out.append("    crate_root = \"");
    out.append(find_root(&cs.targets, TargetKind::BuildScript, "build.rs").as_str());
    out.append("\",\n");
    match &cs.links {
        Some(l) => {
            out.append("    links = \"");
            out.append(l.as_str());
            out.append("\",\n");
        },
        None => {},
    }
    proof {
        assert(out@ =~= bsbase + bs_head_of(*cs));
    }
    append_attr_block(out, "deps", &cs.build_deps);
    append_attr_block(out, "data", &cs.build_data_deps);
    if cs.build_script_env.entries.len() > 0 {
        out.append("    build_script_env = {");
        append_env_items(out, &cs.build_script_env.entries);
        out.append("},\n");
    }
    out.append(")\n\n");
    proof {
        assert(out@ =~= bsbase + bs_rule_of(*cs));
    }
}

/// Appends the omitted-target comment stubs.
fn append_unsupported(out: &mut String, v: &Vec<(String, String)>)
    ensures
        final(out)@ == old(out)@ + unsupported_lines(v@),
{
    let ghost ubase = out@;
    let n = v.len();
    let mut j: usize = 0;
    proof {
        assert(v@.subrange(0, 0) =~= Seq::<(String, String)>::empty());
        assert(out@ =~= ubase + unsupported_lines(v@.subrange(0, 0)));
    }
    while j < n
        invariant
            j <= n,
            n == v@.len(),
            out@ == ubase + unsupported_lines(v@.subrange(0, j as int)),
        decreases n - j,
    {
        out.append("# Unsupported target ");
        append_quoted(out, v[j].0.as_str());
        out.append(" with type ");
        append_quoted(out, v[j].1.as_str());
        out.append(" omitted\n");
        proof {
            assert(v@.subrange(0, j + 1).drop_last() =~= v@.subrange(0, j as int));
            assert(v@.subrange(0, j + 1).last() == v@[j as int]);
            assert(out@ =~= ubase + unsupported_lines(v@.subrange(0, j + 1)));
        }
        j = j + 1;
    }
    proof {
        assert(v@.subrange(0, n as int) =~= v@);
    }
}

/// Appends the rule's attribute section.
#[verifier::rlimit(100)]
fn append_main_deps(out: &mut String, cs: &CrateSpec)
    ensures
        final(out)@ == old(out)@ + main_deps_attr(*cs),
{
    let ghost base = out@;
    if cs.has_build_script {
        out.append("        deps = [\":");
        out.append(sanitize_dep_name(cs.name.as_str()).as_str());
        if cs.deps.len() == 0 {
            out.append("_build_script\"],\n");
        } else {
            out.append("_build_script\"] + selects.with_or({\n");
            append_select_body(out, &cs.deps);
            out.append("        }),\n");
        }
    } else {
        append_attr_block(out, "deps", &cs.deps);
    }
    proof {
        assert(out@ =~= base + main_deps_attr(*cs));
    }
}

/// Appends the rule's attribute section.
#[verifier::rlimit(100)]
fn append_attrs(out: &mut String, cs: &CrateSpec)
    ensures
        final(out)@ == old(out)@ + attrs_of(*cs),
{
    let ghost base = out@;
    append_main_deps(out, cs);
    append_attr_block(out, "data", &cs.data_deps);
    if cs.features.len() > 0 {
        out.append("    crate_features = [");
        append_items(out, &cs.features);
        out.append("],\n");
    }
    if cs.rustc_env.entries.len() > 0 {
        out.append("    rustc_env = {");
        append_env_items(out, &cs.rustc_env.entries);
        out.append("},\n");
    }
    if cs.aliases.entries.len() > 0 {
        out.append("    aliases = select({\n        \"//conditions:default\": {");
        append_env_items(out, &cs.aliases.entries);
        out.append("},\n    }),\n");
    }
    proof {
        assert(out@ =~= base + attrs_of(*cs));
    }
}

/// Appends the crate's main rule and trailing comment stubs.
#[verifier::rlimit(100)]
fn append_main_rule(out: &mut String, cs: &CrateSpec)
    ensures
        final(out)@ == old(out)@ + main_rule_of(*cs),
{
    let ghost base = out@;
    match cs.kind {
        TargetKind::ProcMacro => {
            out.append("rust_proc_macro");
        },
        TargetKind::Binary => {
            out.append("rust_binary");
        },
        _ => {
            out.append("rust_library");
        },
    }
    out.append("(\n    name = \"");
    out.append(sanitize_dep_name(cs.name.as_str()).as_str());
    out.append("\",\n");
    out.append("    srcs = glob([\"**/*.rs\"]),\n");
    out.append("    crate_root = \"");
    out.append(find_root(&cs.targets, cs.kind, "src/lib.rs").as_str());
    out.append("\",\n");
    proof {
        assert(out@ =~= base + rule_head_of(*cs));
    }
    append_attrs(out, cs);
    let ghost mid = out@;
    out.append("    version = \"");
    out.append(cs.version.as_str());
    out.append("\",\n    edition = \"");
    out.append(cs.edition.as_str());
    out.append("\",\n)\n");
    append_unsupported(out, &cs.unsupported_targets);
    proof {
        assert(out@ =~= mid + rule_tail_of(*cs));
        assert(out@ =~= base + main_rule_of(*cs));
    }
}

/// Appends one crate's whole build-file content.
fn append_build_file(out: &mut String, cs: &CrateSpec)
    ensures
        final(out)@ == old(out)@ + build_file_of(*cs),
{
    let ghost base = out@;
    out.append(
        "load(\"@bazel_skylib//lib:selects.bzl\", \"selects\")\nload(\"@io_bazel_rules_rust//rust:rust.bzl\", \"rust_library\", \"rust_binary\", \"rust_proc_macro\")\nload(\"@io_bazel_rules_rust//cargo:cargo_build_script.bzl\", \"cargo_build_script\")\n\n",
    );
    out.append("package(default_visibility = [\"//visibility:public\"])\n\n");
    out.append("# license: ");
    out.append(cs.license.as_str());
    out.append("\n\n");
    proof {
        assert(out@ =~= base + bf_header_of(*cs));
    }
    if cs.has_build_script {
        append_bs_rule(out, cs);
    }
    append_main_rule(out, cs);
    proof {
        assert(out@ =~= base + build_file_of(*cs));
    }
}

/// Appends one crate's archive-fetch block.
#[verifier::rlimit(60)]
fn append_block(out: &mut String, cs: &CrateSpec, template: &str)
    ensures
        final(out)@ == old(out)@ + block_of(*cs, template@),
{
    let ghost base = out@;
    match &cs.source {
        PackageSource::Registry => {
            out.append("    http_archive(\n        name = \"");
            out.append(crate_to_repo_rule_name(cs.name.as_str(), cs.version.as_str()).as_str());
            out.append("\",\n        url = \"");
            proof {
                reveal_strlit("{name}");
                reveal_strlit("{version}");
            }
            let step1 = replace_all_str(template, "{name}", cs.name.as_str());
            let url = replace_all_str(step1.as_str(), "{version}", cs.version.as_str());
            out.append(url.as_str());
            out.append("\",\n        type = \"tar.gz\",\n        strip_prefix = \"");
            out.append(cs.name.as_str());
            out.append("-");
            out.append(cs.version.as_str());
            out.append("\",\n        build_file_content = \"\"\"");
            append_build_file(out, cs);
            out.append("\"\"\",\n    )\n\n");
            proof {
                assert(out@ =~= base + block_of(*cs, template@));
            }
        },
        PackageSource::Git { remote, commit, path_in_repo } => {
            out.append("    new_git_repository(\n        name = \"");
            out.append(crate_to_repo_rule_name(cs.name.as_str(), cs.version.as_str()).as_str());
            out.append("\",\n        remote = \"");
            out.append(remote.as_str());
            out.append("\",\n        commit = \"");
            out.append(commit.as_str());
            out.append("\",\n        strip_prefix = \"");
            out.append(path_in_repo.as_str());
            out.append("\",\n        build_file_content = \"\"\"");
            append_build_file(out, cs);
            out.append("\"\"\",\n    )\n\n");
            proof {
                assert(out@ =~= base + block_of(*cs, template@));
            }
        },
    }
}

/// Renders the whole document from the consolidated model.
#[verifier::rlimit(100)]
pub fn render(model: &ConsolidatedModel) -> (r: String)
    ensures
        r@ == document_of(*model),
{
    let mut out = String::from_str("# digest: ");
    out.append(model.digest.as_str());
    out.append("\n\n");
    out.append(
        "load(\"@bazel_tools//tools/build_defs/repo:http.bzl\", \"http_archive\")\nload(\"@bazel_tools//tools/build_defs/repo:git.bzl\", \"new_git_repository\")\n\n",
    );
    out.append("def pinned_rust_install():\n");
    if model.crates.len() == 0 {
        out.append("    pass\n");
    }
    let ghost bbase = out@;
    let n = model.crates.len();
    let mut i: usize = 0;
    proof {
        assert(model.crates@.subrange(0, 0) =~= Seq::<CrateSpec>::empty());
        assert(out@ =~= bbase + blocks_of(
            model.crates@.subrange(0, 0),
            model.render_config.repository_template@,
        ));
    }
    while i < n
        invariant
            i <= n,
            n == model.crates@.len(),
            out@ == bbase + blocks_of(
                model.crates@.subrange(0, i as int),
                model.render_config.repository_template@,
            ),
        decreases n - i,
    {
        append_block(&mut out, &model.crates[i], model.render_config.repository_template.as_str());
        proof {
            assert(model.crates@.subrange(0, i + 1).drop_last() =~= model.crates@.subrange(
                0,
                i as int,
            ));
            assert(model.crates@.subrange(0, i + 1).last() == model.crates@[i as int]);
            assert(out@ =~= bbase + blocks_of(
                model.crates@.subrange(0, i + 1),
                model.render_config.repository_template@,
            ));
        }
        i = i + 1;
    }
    proof {
        assert(model.crates@.subrange(0, n as int) =~= model.crates@);
    }
    out.append("CRATE_TARGET_NAMES = {\n");
    let ghost nbase = out@;
    let tn = model.target_names.len();
    let mut i2: usize = 0;
    proof {
        assert(model.target_names@.subrange(0, 0) =~= Seq::<(String, String)>::empty());
        assert(out@ =~= nbase + names_table(model.target_names@.subrange(0, 0)));
    }
    while i2 < tn
        invariant
            i2 <= tn,
            tn == model.target_names@.len(),
            out@ == nbase + names_table(model.target_names@.subrange(0, i2 as int)),
        decreases tn - i2,
    {
        out.append("    ");
        append_quoted(&mut out, model.target_names[i2].0.as_str());
        out.append(": ");
        append_quoted(&mut out, model.target_names[i2].1.as_str());
        out.append(",\n");
        proof {
            assert(model.target_names@.subrange(0, i2 + 1).drop_last()
                =~= model.target_names@.subrange(0, i2 as int));
            assert(model.target_names@.subrange(0, i2 + 1).last()
                == model.target_names@[i2 as int]);
            assert(out@ =~= nbase + names_table(model.target_names@.subrange(0, i2 + 1)));
        }
        i2 = i2 + 1;
    }
    proof {
        assert(model.target_names@.subrange(0, tn as int) =~= model.target_names@);
    }
    out.append("}\n\n");
    out.append("PROC_MACRO_CRATE_NAMES = [");
    append_items(&mut out, &model.proc_macro_names);
    out.append("]\n\n");
    out.append(
        "def crate(crate_name):\n    \"\"\"The fully qualified label of the requested crate.\"\"\"\n    if crate_name not in CRATE_TARGET_NAMES:\n        fail(\"Unknown crate: \" + crate_name)\n    return CRATE_TARGET_NAMES[crate_name]\n\ndef all_deps():\n    return [crate(name) for name in CRATE_TARGET_NAMES.keys()]\n\ndef all_proc_macro_deps():\n    return [crate(name) for name in PROC_MACRO_CRATE_NAMES]\n\n",
    );
    out.append("LABEL_TO_CRATES = {\n");
    let ghost lbase = out@;
    let ln = model.label_to_crates.entries.len();
    let mut i3: usize = 0;
    proof {
        assert(model.label_to_crates.entries@.subrange(0, 0) =~= Seq::<
            (String, Vec<String>),
        >::empty());
        assert(out@ =~= lbase + labels_table(model.label_to_crates.entries@.subrange(0, 0)));
    }
    while i3 < ln
        invariant
            i3 <= ln,
            ln == model.label_to_crates.entries@.len(),
            out@ == lbase + labels_table(model.label_to_crates.entries@.subrange(0, i3 as int)),
        decreases ln - i3,
    {
        out.append("    ");
        append_quoted(&mut out, model.label_to_crates.entries[i3].0.as_str());
        out.append(": [");
        append_items(&mut out, &model.label_to_crates.entries[i3].1);
        out.append("],\n");
        proof {
            assert(model.label_to_crates.entries@.subrange(0, i3 + 1).drop_last()
                =~= model.label_to_crates.entries@.subrange(0, i3 as int));
            assert(model.label_to_crates.entries@.subrange(0, i3 + 1).last()
                == model.label_to_crates.entries@[i3 as int]);
            assert(out@ =~= lbase + labels_table(
                model.label_to_crates.entries@.subrange(0, i3 + 1),
            ));
        }
        i3 = i3 + 1;
    }
    proof {
        assert(model.label_to_crates.entries@.subrange(0, ln as int)
            =~= model.label_to_crates.entries@);
    }
    out.append("}\n\n");
    out.append(
        "def crates_from(label):\n    return [crate(name) for name in LABEL_TO_CRATES[_absolutify(label)]]\n\ndef proc_macro_crates_from(label):\n    return [crate(name) for name in LABEL_TO_CRATES[_absolutify(label)] if name in PROC_MACRO_CRATE_NAMES]\n\ndef _absolutify(label):\n    if label.startswith(\"//\") or label.startswith(\"@\"):\n        return label\n    if label.startswith(\":\"):\n        return \"//\" + native.package_name() + label\n    return \"//\" + native.package_name() + \":\" + label\n",
    );
    proof {
        assert(out@ =~= document_of(*model));
    }
    out
}

} // verus!
