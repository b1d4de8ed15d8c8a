//! The rendering side of the model: the canonical target-name table that
//! maps each user-visible crate name to its fully qualified label under the
//! chosen version.
use crate::config::{crate_label_spec, crate_to_label};
use crate::dict::{assoc_get, entries_sorted, lemma_assoc_get_at, lemma_assoc_get_none, Dict};
use crate::strutil::{lex_lt, str_eq};
use crate::versions::get_version;
use vstd::prelude::*;
use vstd::string::*;

verus! {

/// What the renderer needs beyond the model: the URL template with `{name}`
/// and `{version}` tokens.
pub struct RenderConfig {
    pub repository_template: String,
}

/// The crate-target-names table: each chosen (name, version) pair becomes a
/// row mapping the original crate name to its fully qualified target label,
/// in ascending name order.
pub fn crate_target_names(chosen: &Dict<String>) -> (r: Vec<(String, String)>)
    requires
        chosen.wf(),
    ensures
        r@.len() == chosen.entries@.len(),
        forall|i: int|
            0 <= i < r@.len() ==> (#[trigger] r@[i]).0 == chosen.entries@[i].0 && r@[i].1@
                == crate_label_spec(chosen.entries@[i].0@, chosen.entries@[i].1@),
        entries_sorted(r@),
{
    let n = chosen.len();
    let mut out: Vec<(String, String)> = Vec::new();
    let mut i: usize = 0;
    while i < n
        invariant
            i <= n,
            n == chosen.entries@.len(),
            out@.len() == i,
            forall|j: int|
                0 <= j < i ==> (#[trigger] out@[j]).0 == chosen.entries@[j].0 && out@[j].1@
                    == crate_label_spec(chosen.entries@[j].0@, chosen.entries@[j].1@),
        decreases n - i,
    {
        let name = chosen.entries[i].0.clone();
        let label = crate_to_label(chosen.entries[i].0.as_str(), chosen.entries[i].1.as_str());
        out.push((name, label));
        i = i + 1;
    }
    proof {
        assert forall|a: int, b: int| 0 <= a < b < out@.len() implies lex_lt(
            #[trigger] out@[a].0@,
            #[trigger] out@[b].0@,
        ) by {
            assert(out@[a].0 == chosen.entries@[a].0);
            assert(out@[b].0 == chosen.entries@[b].0);
            assert(lex_lt(chosen.entries@[a].0@, chosen.entries@[b].0@));
        }
    }
    out
}

/// Label round trip: every crate name with a chosen version appears in the
/// target-names table, mapped to exactly the label derived from the name and
/// its chosen version.
pub proof fn lemma_label_round_trip(
    chosen: Dict<String>,
    names: Seq<(String, String)>,
    nm: Seq<char>,
)
    requires
        chosen.wf(),
        names.len() == chosen.entries@.len(),
        forall|i: int|
            0 <= i < names.len() ==> (#[trigger] names[i]).0 == chosen.entries@[i].0
                && names[i].1@ == crate_label_spec(chosen.entries@[i].0@, chosen.entries@[i].1@),
        get_version(chosen, nm) is Some,
    ensures
        exists|i: int|
            0 <= i < names.len() && (#[trigger] names[i]).0@ == nm && names[i].1@
                == crate_label_spec(nm, get_version(chosen, nm)->0),
{
    lemma_assoc_get_none(chosen.entries@, nm);
    let t = choose|t: int|
        0 <= t < chosen.entries@.len() && (#[trigger] chosen.entries@[t].0@) == nm;
    assert forall|u: int| 0 <= u < t implies (#[trigger] chosen.entries@[u].0@) != nm by {
        if chosen.entries@[u].0@ == nm {
            assert(lex_lt(chosen.entries@[u].0@, chosen.entries@[t].0@));
            crate::strutil::lemma_lex_lt_irrefl(nm);
        }
    }
    lemma_assoc_get_at(chosen.entries@, nm, t);
    assert(assoc_get(chosen.entries@, nm) == Some(chosen.entries@[t].1));
    assert(names[t].0@ == nm);
    assert(names[t].1@ == crate_label_spec(nm, get_version(chosen, nm)->0));
}

/// Whether an alias row of the upstream planner targets this dependency: its
/// target label ends in a colon followed by the dependency's name with
/// hyphens as underscores.
pub open spec fn alias_targets_dep(target: Seq<char>, dep_name: Seq<char>) -> bool {
    ({
        let suffix = seq![':'] + crate::config::sanitized_name(dep_name);
        target.len() >= suffix.len() && target.subrange(
            target.len() - suffix.len(),
            target.len() as int,
        ) == suffix
    })
}

/// Decides whether one of the planner's alias rows names this dependency.
pub fn alias_applies(target: &str, dep_name: &str) -> (r: bool)
    ensures
        r == alias_targets_dep(target@, dep_name@),
{
    let under = crate::config::sanitize_dep_name(dep_name);
    let un = under.unicode_len();
    let tn = target.unicode_len();
    proof {
        reveal_strlit(":");
    }
    if tn < 1 || tn - 1 < un {
        proof {
            assert(tn < 1 + crate::config::sanitized_name(dep_name@).len());
        }
        return false;
    }
    let suffix_len = 1 + un;
    let tail = target.substring_char(tn - suffix_len, tn);
    let mut expected = String::from_str(":");
    expected.append(under.as_str());
    let r = str_eq(tail, expected.as_str());
    proof {
        assert(expected@ =~= seq![':'] + crate::config::sanitized_name(dep_name@));
        assert(tail@ == target@.subrange(tn - suffix_len, tn as int));
    }
    r
}

} // verus!
