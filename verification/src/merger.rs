//! Merges the dependency tables of several input manifests into one
//! synthetic workspace table, records which crate names each labelled input
//! depends on, and carries at most one patch section through.
use crate::config::Package;
use crate::dict::{assoc_get, insert_string_set, strings_sorted_unique, views_of, Dict};
use crate::model::Error;
use crate::strutil::str_eq;
use vstd::prelude::*;
use vstd::string::*;

verus! {

/// One dependency row of an input manifest: the crate name and the exact
/// serialized specification (requirement, features, flags) it was declared
/// with.
pub struct ManifestDep {
    pub name: String,
    pub spec: String,
}

/// One parsed input manifest: its label, its direct-dependency rows, and its
/// patch section if it declares one, serialized verbatim.
pub struct ManifestInput {
    pub label: String,
    pub deps: Vec<ManifestDep>,
    pub patch: Option<String>,
}

/// The merger's output: the union dependency table, the patch section carried
/// through, and the label-to-crate-names map.
pub struct MergedDeps {
    pub deps: Dict<String>,
    pub patch: Option<String>,
    pub label_to_crates: Dict<Vec<String>>,
}

/// Some input manifest declares dependency `name` with specification `sp`.
pub open spec fn declares(ms: Seq<ManifestInput>, name: Seq<char>, sp: Seq<char>) -> bool {
    exists|a: int, b: int|
        0 <= a < ms.len() && 0 <= b < (#[trigger] ms[a]).deps@.len() && (
        #[trigger] ms[a].deps@[b]).name@ == name && ms[a].deps@[b].spec@ == sp
}

/// Two input manifests declare `name` with different specifications.
pub open spec fn conflicted(ms: Seq<ManifestInput>, name: Seq<char>) -> bool {
    exists|s1: Seq<char>, s2: Seq<char>|
        declares(ms, name, s1) && declares(ms, name, s2) && s1 != s2
}

/// The set of dependency names one manifest declares.
pub open spec fn dep_names(m: ManifestInput) -> Set<Seq<char>> {
    Set::new(
        |nm: Seq<char>| exists|b: int| 0 <= b < m.deps@.len() && (#[trigger] m.deps@[b]).name@ == nm,
    )
}

/// How many input manifests declare a patch section.
pub open spec fn patch_count(ms: Seq<ManifestInput>) -> int
    decreases ms.len(),
{
    if ms.len() == 0 {
        0
    } else {
        patch_count(ms.drop_last()) + if ms.last().patch is Some {
            1int
        } else {
            0int
        }
    }
}

/// The first declared patch section, if any.
pub open spec fn first_patch(ms: Seq<ManifestInput>) -> Option<String>
    decreases ms.len(),
{
    if ms.len() == 0 {
        None
    } else {
        match first_patch(ms.drop_last()) {
            Some(p) => Some(p),
            None => ms.last().patch,
        }
    }
}

/// Declarations among manifests before `a`, plus rows before `b` of manifest
/// `a`.
pub open spec fn declares_upto(
    ms: Seq<ManifestInput>,
    a: int,
    b: int,
    name: Seq<char>,
    sp: Seq<char>,
) -> bool {
    (exists|x: int, y: int|
        0 <= x < a && 0 <= y < (#[trigger] ms[x]).deps@.len() && (#[trigger] ms[x].deps@[y]).name@
            == name && ms[x].deps@[y].spec@ == sp) || (0 <= a < ms.len() && exists|y: int|
        0 <= y < b && y < ms[a].deps@.len() && (#[trigger] ms[a].deps@[y]).name@ == name
            && ms[a].deps@[y].spec@ == sp)
}

/// The merged dependency table agrees with the declarations seen so far.
pub open spec fn table_matches_upto(
    ms: Seq<ManifestInput>,
    a: int,
    b: int,
    d: Dict<String>,
) -> bool {
    forall|nm: Seq<char>|
        match #[trigger] assoc_get(d.entries@, nm) {
            Some(sp) => declares_upto(ms, a, b, nm, sp@) && (forall|q: Seq<char>|
                #![trigger declares_upto(ms, a, b, nm, q)]
                declares_upto(ms, a, b, nm, q) ==> q == sp@),
            None => forall|sp: Seq<char>|
                #![trigger declares_upto(ms, a, b, nm, sp)]
                !declares_upto(ms, a, b, nm, sp),
        }
}

proof fn lemma_declares_widen(ms: Seq<ManifestInput>, a: int, b: int, nm: Seq<char>, sp: Seq<char>)
    requires
        declares_upto(ms, a, b, nm, sp),
        0 <= b,
    ensures
        declares_upto(ms, a, b + 1, nm, sp),
{
}

proof fn lemma_declares_upto_split(
    ms: Seq<ManifestInput>,
    a: int,
    b: int,
    nm: Seq<char>,
    q: Seq<char>,
)
    requires
        declares_upto(ms, a, b + 1, nm, q),
        0 <= a < ms.len(),
        0 <= b,
    ensures
        declares_upto(ms, a, b, nm, q) || (b < ms[a].deps@.len() && ms[a].deps@[b].name@ == nm
            && ms[a].deps@[b].spec@ == q),
{
    if !(exists|x: int, y: int|
        0 <= x < a && 0 <= y < (#[trigger] ms[x]).deps@.len() && (#[trigger] ms[x].deps@[y]).name@
            == nm && ms[x].deps@[y].spec@ == q) {
        let y = choose|y: int|
            0 <= y < b + 1 && y < ms[a].deps@.len() && (#[trigger] ms[a].deps@[y]).name@ == nm
                && ms[a].deps@[y].spec@ == q;
        if y < b {
            assert(declares_upto(ms, a, b, nm, q));
        }
    }
}

proof fn lemma_declares_prev_row(
    ms: Seq<ManifestInput>,
    a: int,
    dn: int,
    nm: Seq<char>,
    q: Seq<char>,
)
    requires
        declares_upto(ms, a + 1, 0, nm, q),
        0 <= a < ms.len(),
        dn == ms[a].deps@.len(),
    ensures
        declares_upto(ms, a, dn, nm, q),
{
    let (x, y) = choose|x: int, y: int|
        0 <= x < a + 1 && 0 <= y < (#[trigger] ms[x]).deps@.len() && (
        #[trigger] ms[x].deps@[y]).name@ == nm && ms[x].deps@[y].spec@ == q;
    if x < a {
        assert(declares_upto(ms, a, dn, nm, q));
    } else {
        assert(0 <= y < dn && y < ms[a].deps@.len() && ms[a].deps@[y].name@ == nm
            && ms[a].deps@[y].spec@ == q);
    }
}

proof fn lemma_declares_next_row(
    ms: Seq<ManifestInput>,
    a: int,
    dn: int,
    nm: Seq<char>,
    sp: Seq<char>,
)
    requires
        declares_upto(ms, a, dn, nm, sp),
        0 <= a < ms.len(),
        dn == ms[a].deps@.len(),
    ensures
        declares_upto(ms, a + 1, 0, nm, sp),
{
    if !(exists|x: int, y: int|
        0 <= x < a && 0 <= y < (#[trigger] ms[x]).deps@.len() && (#[trigger] ms[x].deps@[y]).name@
            == nm && ms[x].deps@[y].spec@ == sp) {
        let y = choose|y: int|
            0 <= y < dn && y < ms[a].deps@.len() && (#[trigger] ms[a].deps@[y]).name@ == nm
                && ms[a].deps@[y].spec@ == sp;
        assert(0 <= a < a + 1 && 0 <= y < ms[a].deps@.len() && ms[a].deps@[y].name@ == nm
            && ms[a].deps@[y].spec@ == sp);
    }
}

proof fn lemma_declares_full(ms: Seq<ManifestInput>, nm: Seq<char>, sp: Seq<char>)
    ensures
        declares_upto(ms, ms.len() as int, 0, nm, sp) == declares(ms, nm, sp),
{
}

/// Merges the input manifests' dependency tables. Fails with
/// `ManifestConflict` exactly when two manifests declare the same name with
/// unequal specifications, with `PatchConflict` when more than one declares a
/// patch section, and with `ConfigParse` when two manifests carry the same
/// label.
pub fn merge_manifest_deps(manifests: &Vec<ManifestInput>) -> (r: Result<MergedDeps, Error>)
    ensures
        match r {
            Ok(m) => {
                &&& m.deps.wf()
                &&& forall|nm: Seq<char>|
                    match #[trigger] assoc_get(m.deps.entries@, nm) {
                        Some(sp) => declares(manifests@, nm, sp@) && (forall|q: Seq<char>|
                            #![trigger declares(manifests@, nm, q)]
                            declares(manifests@, nm, q) ==> q == sp@),
                        None => forall|sp: Seq<char>|
                            #![trigger declares(manifests@, nm, sp)]
                            !declares(manifests@, nm, sp),
                    }
                &&& m.patch == first_patch(manifests@)
                &&& patch_count(manifests@) <= 1
                &&& m.label_to_crates.wf()
                &&& forall|a: int|
                    0 <= a < manifests@.len() ==> match assoc_get(
                        m.label_to_crates.entries@,
                        (#[trigger] manifests@[a]).label@,
                    ) {
                        Some(cs) => strings_sorted_unique(cs@) && views_of(cs@) == dep_names(
                            manifests@[a],
                        ),
                        None => false,
                    }
                &&& forall|t: int|
                    0 <= t < m.label_to_crates.entries@.len() ==> exists|a: int|
                        0 <= a < manifests@.len() && (#[trigger] m.label_to_crates.entries@[t]).0@
                            == (#[trigger] manifests@[a]).label@
            },
            Err(e) => match e {
                Error::ManifestConflict(nm) => conflicted(manifests@, nm@),
                Error::PatchConflict => patch_count(manifests@) >= 2,
                Error::ConfigParse(_) => exists|a: int, b: int|
                    0 <= a < b < manifests@.len() && (#[trigger] manifests@[a]).label@ == (
                    #[trigger] manifests@[b]).label@,
                _ => false,
            },
        },
{
    let mn = manifests.len();
    let mut deps: Dict<String> = Dict::new();
    proof {
        assert(forall|nm: Seq<char>| #[trigger] assoc_get(deps.entries@, nm) is None);
    }
    let mut a: usize = 0;
    while a < mn
        invariant
            a <= mn,
            mn == manifests@.len(),
            deps.wf(),
            table_matches_upto(manifests@, a as int, 0, deps),
        decreases mn - a,
    {
        let dn = manifests[a].deps.len();
        let mut b: usize = 0;
        while b < dn
            invariant
                b <= dn,
                a < mn,
                mn == manifests@.len(),
                dn == manifests@[a as int].deps@.len(),
                deps.wf(),
                table_matches_upto(manifests@, a as int, b as int, deps),
            decreases dn - b,
        {
            let row_name = &manifests[a].deps[b].name;
            let row_spec = &manifests[a].deps[b].spec;
            let ghost grow_name = row_name@;
            let ghost grow_spec = row_spec@;
            let mut conflict = false;
            let mut present = false;
            match deps.get(row_name.as_str()) {
                Some(sp) => {
                    present = true;
                    if !str_eq(sp.as_str(), row_spec.as_str()) {
                        conflict = true;
                    }
                    proof {
                        if conflict {
                            assert(declares_upto(
                                manifests@,
                                a as int,
                                b as int,
                                grow_name,
                                sp@,
                            ));
                            lemma_declares_next_row_chain(manifests@, a as int, grow_name, sp@);
                            assert(declares(manifests@, grow_name, sp@));
                            assert(declares(manifests@, grow_name, grow_spec));
                            assert(conflicted(manifests@, grow_name));
                        }
                    }
                },
                None => {},
            }
            if conflict {
                return Err(Error::ManifestConflict(row_name.clone()));
            }
            if present {
                proof {
                    assert forall|nm: Seq<char>|
                        match #[trigger] assoc_get(deps.entries@, nm) {
                            Some(q) => declares_upto(manifests@, a as int, b + 1, nm, q@) && (
                            forall|q2: Seq<char>|
                                #![trigger declares_upto(manifests@, a as int, b + 1, nm, q2)]
                                declares_upto(manifests@, a as int, b + 1, nm, q2) ==> q2 == q@),
                            None => forall|q: Seq<char>|
                                #![trigger declares_upto(manifests@, a as int, b + 1, nm, q)]
                                !declares_upto(manifests@, a as int, b + 1, nm, q),
                        } by {
                        match assoc_get(deps.entries@, nm) {
                            Some(q) => {
                                lemma_declares_widen(manifests@, a as int, b as int, nm, q@);
                                assert forall|q2: Seq<char>| #[trigger] declares_upto(
                                    manifests@,
                                    a as int,
                                    b + 1,
                                    nm,
                                    q2,
                                ) implies q2 == q@ by {
                                    lemma_declares_upto_split(
                                        manifests@,
                                        a as int,
                                        b as int,
                                        nm,
                                        q2,
                                    );
                                    if !declares_upto(manifests@, a as int, b as int, nm, q2) {
                                        assert(nm == grow_name && q2 == grow_spec);
                                        assert(declares_upto(
                                            manifests@,
                                            a as int,
                                            b as int,
                                            grow_name,
                                            q@,
                                        ));
                                    }
                                }
                            },
                            None => {
                                assert forall|q: Seq<char>| !#[trigger] declares_upto(manifests@, a as int, b + 1, nm, q) by {
                                    if declares_upto(manifests@, a as int, b + 1, nm, q) {
                                        if nm == grow_name {
                                            assert(assoc_get(deps.entries@, grow_name) is Some);
                                        } else {
                                            assert(declares_upto(
                                                manifests@,
                                                a as int,
                                                b as int,
                                                nm,
                                                q,
                                            ));
                                        }
                                    }
                                }
                            },
                        }
                    }
                }
            } else {
                let ghost pre = deps;
                let res = deps.insert(row_name.clone(), row_spec.clone());
                proof {
                    if res is Err {
                        crate::dict::lemma_assoc_get_none(pre.entries@, grow_name);
                        assert(false);
                    }
                    assert(deps.spec_get(grow_name) is Some);
                    assert forall|nm: Seq<char>|
                        match #[trigger] assoc_get(deps.entries@, nm) {
                            Some(q) => declares_upto(manifests@, a as int, b + 1, nm, q@) && (
                            forall|q2: Seq<char>|
                                #![trigger declares_upto(manifests@, a as int, b + 1, nm, q2)]
                                declares_upto(manifests@, a as int, b + 1, nm, q2) ==> q2 == q@),
                            None => forall|q: Seq<char>|
                                #![trigger declares_upto(manifests@, a as int, b + 1, nm, q)]
                                !declares_upto(manifests@, a as int, b + 1, nm, q),
                        } by {
                        if nm == grow_name {
                            assert(assoc_get(deps.entries@, nm) == Some(
                                deps.spec_get(grow_name)->0,
                            ));
                            assert((deps.spec_get(grow_name)->0)@ == grow_spec);
                            assert(manifests@[a as int].deps@[b as int].name@ == nm);
                            assert(declares_upto(manifests@, a as int, b + 1, nm, grow_spec));
                            assert forall|q2: Seq<char>| #[trigger] declares_upto(
                                manifests@,
                                a as int,
                                b + 1,
                                nm,
                                q2,
                            ) implies q2 == grow_spec by {
                                lemma_declares_upto_split(manifests@, a as int, b as int, nm, q2);
                                if declares_upto(manifests@, a as int, b as int, nm, q2) {
                                    assert(pre.spec_get(nm) is None);
                                }
                            }
                        } else {
                            assert(deps.spec_get(nm) == pre.spec_get(nm));
                            match assoc_get(deps.entries@, nm) {
                                Some(q) => {
                                    assert(declares_upto(manifests@, a as int, b as int, nm, q@));
                                    lemma_declares_widen(manifests@, a as int, b as int, nm, q@);
                                    assert forall|q2: Seq<char>| #[trigger] declares_upto(
                                        manifests@,
                                        a as int,
                                        b + 1,
                                        nm,
                                        q2,
                                    ) implies q2 == q@ by {
                                        lemma_declares_upto_split(
                                            manifests@,
                                            a as int,
                                            b as int,
                                            nm,
                                            q2,
                                        );
                                    }
                                },
                                None => {
                                    assert forall|q: Seq<char>| !#[trigger] declares_upto(manifests@, a as int, b + 1, nm, q) by {
                                        if declares_upto(manifests@, a as int, b + 1, nm, q) {
                                            assert(declares_upto(
                                                manifests@,
                                                a as int,
                                                b as int,
                                                nm,
                                                q,
                                            ));
                                        }
                                    }
                                },
                            }
                        }
                    }
                }
            }
            b = b + 1;
        }
        proof {
            assert forall|nm: Seq<char>|
                match #[trigger] assoc_get(deps.entries@, nm) {
                    Some(sp) => declares_upto(manifests@, a + 1, 0, nm, sp@) && (forall|
                        q2: Seq<char>,
                    |
                        #![trigger declares_upto(manifests@, a + 1, 0, nm, q2)]
                        declares_upto(manifests@, a + 1, 0, nm, q2) ==> q2 == sp@),
                    None => forall|sp: Seq<char>|
                        #![trigger declares_upto(manifests@, a + 1, 0, nm, sp)]
                        !declares_upto(manifests@, a + 1, 0, nm, sp),
                } by {
                match assoc_get(deps.entries@, nm) {
                    Some(sp) => {
                        assert(declares_upto(manifests@, a as int, dn as int, nm, sp@));
                        lemma_declares_next_row(manifests@, a as int, dn as int, nm, sp@);
                        assert forall|q2: Seq<char>| #[trigger] declares_upto(
                            manifests@,
                            a + 1,
                            0,
                            nm,
                            q2,
                        ) implies q2 == sp@ by {
                            lemma_declares_prev_row(manifests@, a as int, dn as int, nm, q2);
                        }
                    },
                    None => {
                        assert forall|sp: Seq<char>| !#[trigger] declares_upto(manifests@, a + 1, 0, nm, sp) by {
                            if declares_upto(manifests@, a + 1, 0, nm, sp) {
                                let (x, y) = choose|x: int, y: int|
                                    0 <= x < a + 1 && 0 <= y < (#[trigger] manifests@[x]).deps@.len()
                                        && (#[trigger] manifests@[x].deps@[y]).name@ == nm
                                        && manifests@[x].deps@[y].spec@ == sp;
                                if x < a as int {
                                    assert(declares_upto(manifests@, a as int, dn as int, nm, sp));
                                } else {
                                    assert(declares_upto(manifests@, a as int, dn as int, nm, sp));
                                }
                            }
                        }
                    },
                }
            }
        }
        a = a + 1;
    }
    proof {
        assert forall|nm: Seq<char>|
            match #[trigger] assoc_get(deps.entries@, nm) {
                Some(sp) => declares(manifests@, nm, sp@) && (forall|q2: Seq<char>|
                    #![trigger declares(manifests@, nm, q2)]
                    declares(manifests@, nm, q2) ==> q2 == sp@),
                None => forall|sp: Seq<char>|
                    #![trigger declares(manifests@, nm, sp)]
                    !declares(manifests@, nm, sp),
            } by {
            match assoc_get(deps.entries@, nm) {
                Some(sp) => {
                    assert(declares_upto(manifests@, mn as int, 0, nm, sp@));
                    lemma_declares_full(manifests@, nm, sp@);
                    assert forall|q2: Seq<char>| #[trigger] declares(
                        manifests@,
                        nm,
                        q2,
                    ) implies q2 == sp@ by {
                        lemma_declares_full(manifests@, nm, q2);
                        assert(declares_upto(manifests@, mn as int, 0, nm, q2));
                    }
                },
                None => {
                    assert forall|sp: Seq<char>| !#[trigger] declares(manifests@, nm, sp) by {
                        if declares(manifests@, nm, sp) {
                            lemma_declares_full(manifests@, nm, sp);
                            assert(declares_upto(manifests@, mn as int, 0, nm, sp));
                        }
                    }
                },
            }
        }
    }
    // patch sections: at most one manifest may declare one
    let mut patch: Option<String> = None;
    let mut a2: usize = 0;
    proof {
        assert(manifests@.subrange(0, 0) =~= Seq::<ManifestInput>::empty());
    }
    while a2 < mn
        invariant
            a2 <= mn,
            mn == manifests@.len(),
            patch == first_patch(manifests@.subrange(0, a2 as int)),
            patch is Some ==> patch_count(manifests@.subrange(0, a2 as int)) == 1,
            patch is None ==> patch_count(manifests@.subrange(0, a2 as int)) == 0,
        decreases mn - a2,
    {
        proof {
            assert(manifests@.subrange(0, a2 + 1).drop_last() =~= manifests@.subrange(
                0,
                a2 as int,
            ));
            assert(manifests@.subrange(0, a2 + 1).last() == manifests@[a2 as int]);
        }
        let has = match &manifests[a2].patch {
            Some(_) => true,
            None => false,
        };
        if has {
            match patch {
                Some(_) => {
                    proof {
                        lemma_patch_count_prefix(manifests@, a2 + 1);
                    }
                    return Err(Error::PatchConflict);
                },
                None => {
                    patch = match &manifests[a2].patch {
                        Some(p) => Some(p.clone()),
                        None => None,
                    };
                },
            }
        }
        a2 = a2 + 1;
    }
    proof {
        assert(manifests@.subrange(0, mn as int) =~= manifests@);
    }
    // the label-to-crates map: each label's set of dependency names
    let mut labels: Dict<Vec<String>> = Dict::new();
    let mut a3: usize = 0;
    while a3 < mn
        invariant
            a3 <= mn,
            mn == manifests@.len(),
            labels.wf(),
            forall|x: int|
                0 <= x < a3 ==> match assoc_get(
                    labels.entries@,
                    (#[trigger] manifests@[x]).label@,
                ) {
                    Some(cs) => strings_sorted_unique(cs@) && views_of(cs@) == dep_names(
                        manifests@[x],
                    ),
                    None => false,
                },
            forall|t: int|
                0 <= t < labels.entries@.len() ==> exists|x: int|
                    0 <= x < a3 && (#[trigger] labels.entries@[t]).0@ == (
                    #[trigger] manifests@[x]).label@,
        decreases mn - a3,
    {
        let dn = manifests[a3].deps.len();
        let mut crates: Vec<String> = Vec::new();
        let mut b: usize = 0;
        proof {
            assert(views_of(crates@) =~= Set::new(
                |nm: Seq<char>|
                    exists|y: int|
                        0 <= y < 0 && (#[trigger] manifests@[a3 as int].deps@[y]).name@ == nm,
            ));
        }
        while b < dn
            invariant
                b <= dn,
                a3 < mn,
                mn == manifests@.len(),
                dn == manifests@[a3 as int].deps@.len(),
                strings_sorted_unique(crates@),
                views_of(crates@) == Set::new(
                    |nm: Seq<char>|
                        exists|y: int|
                            0 <= y < b && (#[trigger] manifests@[a3 as int].deps@[y]).name@ == nm,
                ),
            decreases dn - b,
        {
            insert_string_set(&mut crates, manifests[a3].deps[b].name.clone());
            proof {
                assert(views_of(crates@) =~= Set::new(
                    |nm: Seq<char>|
                        exists|y: int|
                            0 <= y < b + 1 && (#[trigger] manifests@[a3 as int].deps@[y]).name@
                                == nm,
                ));
            }
            b = b + 1;
        }
        proof {
            assert(views_of(crates@) =~= dep_names(manifests@[a3 as int]));
        }
        let ghost gcrates = crates;
        let ghost prelabels = labels;
        let res = labels.insert(manifests[a3].label.clone(), crates);
        match res {
            Ok(_) => {},
            Err(_) => {
                proof {
                    broadcast use vstd::seq_lib::group_to_multiset_ensures;

                    let w = choose|t: int|
                        0 <= t < prelabels.entries@.len() && (#[trigger] prelabels.entries@[t].0@)
                            == manifests@[a3 as int].label@;
                    let x = choose|x: int|
                        0 <= x < a3 && (#[trigger] prelabels.entries@[w as int]).0@ == (
                        #[trigger] manifests@[x]).label@;
                    assert(0 <= x && x < a3 as int);
                    assert((a3 as int) < manifests@.len());
                    assert(manifests@[x].label@ == manifests@[a3 as int].label@);
                }
                return Err(
                    Error::ConfigParse(String::from_str("two manifests carry the same label")),
                );
            },
        }
        proof {
            broadcast use vstd::seq_lib::group_to_multiset_ensures;

            assert forall|x: int|
                0 <= x < a3 + 1 implies match assoc_get(
                labels.entries@,
                (#[trigger] manifests@[x]).label@,
            ) {
                Some(cs) => strings_sorted_unique(cs@) && views_of(cs@) == dep_names(
                    manifests@[x],
                ),
                None => false,
            } by {
                if x < a3 as int {
                    if manifests@[x].label@ != manifests@[a3 as int].label@ {
                        assert(labels.spec_get(manifests@[x].label@) == prelabels.spec_get(
                            manifests@[x].label@,
                        ));
                    } else {
                        assert(assoc_get(prelabels.entries@, manifests@[x].label@) is Some);
                        crate::dict::lemma_assoc_get_none(prelabels.entries@, manifests@[x].label@);
                        let t = choose|t: int|
                            0 <= t < prelabels.entries@.len() && (
                            #[trigger] prelabels.entries@[t].0@) == manifests@[x].label@;
                        assert(false);
                    }
                } else {
                    assert(labels.spec_get(manifests@[a3 as int].label@) == Some(gcrates));
                }
            }
            assert forall|t: int| 0 <= t < labels.entries@.len() implies exists|x: int|
                0 <= x < a3 + 1 && (#[trigger] labels.entries@[t]).0@ == (
                #[trigger] manifests@[x]).label@ by {
                let e = labels.entries@[t];
                assert(labels.entries@.contains(e));
                assert(labels.entries@.to_multiset().contains(e));
                if prelabels.entries@.to_multiset().contains(e) {
                    assert(prelabels.entries@.contains(e));
                    let t0 = choose|t0: int|
                        0 <= t0 < prelabels.entries@.len() && prelabels.entries@[t0] == e;
                    let x = choose|x: int|
                        0 <= x < a3 && (#[trigger] prelabels.entries@[t0 as int]).0@ == (
                        #[trigger] manifests@[x]).label@;
                    assert(e.0@ == manifests@[x].label@);
                } else {
                    assert(e.0@ == manifests@[a3 as int].label@);
                }
            }
        }
        a3 = a3 + 1;
    }
    Ok(MergedDeps { deps, patch, label_to_crates: labels })
}

/// The declarations seen after finishing one manifest's rows carry into the
/// full sequence.
proof fn lemma_declares_next_row_chain(
    ms: Seq<ManifestInput>,
    a: int,
    nm: Seq<char>,
    sp: Seq<char>,
)
    requires
        0 <= a < ms.len(),
        exists|b: int| declares_upto(ms, a, b, nm, sp),
    ensures
        declares(ms, nm, sp),
{
    let b = choose|b: int| declares_upto(ms, a, b, nm, sp);
    if !(exists|x: int, y: int|
        0 <= x < a && 0 <= y < (#[trigger] ms[x]).deps@.len() && (#[trigger] ms[x].deps@[y]).name@
            == nm && ms[x].deps@[y].spec@ == sp) {
        let y = choose|y: int|
            0 <= y < b && y < ms[a].deps@.len() && (#[trigger] ms[a].deps@[y]).name@ == nm
                && ms[a].deps@[y].spec@ == sp;
        assert(0 <= a < ms.len() && 0 <= y < ms[a].deps@.len() && ms[a].deps@[y].name@ == nm
            && ms[a].deps@[y].spec@ == sp);
    }
}

/// A prefix holding two patch sections forces the whole sequence to hold at
/// least two.
proof fn lemma_patch_count_prefix(ms: Seq<ManifestInput>, upto: int)
    requires
        0 <= upto <= ms.len(),
    ensures
        patch_count(ms) >= patch_count(ms.subrange(0, upto)),
    decreases ms.len() - upto,
{
    if upto < ms.len() {
        assert(ms.subrange(0, upto + 1).drop_last() =~= ms.subrange(0, upto));
        assert(ms.subrange(0, upto + 1).last() == ms[upto]);
        assert(patch_count(ms.subrange(0, upto + 1)) >= patch_count(ms.subrange(0, upto)));
        lemma_patch_count_prefix(ms, upto + 1);
        if upto + 1 == ms.len() {
            assert(ms.subrange(0, ms.len() as int) =~= ms);
        }
    } else {
        assert(ms.subrange(0, upto) =~= ms);
    }
}

/// `s` between double quotes.
pub open spec fn quoted(s: Seq<char>) -> Seq<char> {
    seq!['"'] + s + seq!['"']
}

/// The feature list items, quoted and comma-joined.
pub open spec fn feature_items(fs: Seq<String>) -> Seq<char>
    decreases fs.len(),
{
    if fs.len() == 0 {
        Seq::empty()
    } else if fs.len() == 1 {
        quoted(fs[0]@)
    } else {
        feature_items(fs.drop_last()) + ", "@ + quoted(fs.last()@)
    }
}

/// One dependency row of the synthetic table.
pub open spec fn dep_line(name: Seq<char>, sp: Seq<char>) -> Seq<char> {
    name + " = "@ + sp + "\n"@
}

/// The merged dependency rows, in table order.
pub open spec fn dep_lines(entries: Seq<(String, String)>) -> Seq<char>
    decreases entries.len(),
{
    if entries.len() == 0 {
        Seq::empty()
    } else {
        dep_lines(entries.drop_last()) + dep_line(entries.last().0@, entries.last().1@)
    }
}

/// One extra package pin as a dependency row.
pub open spec fn pin_line(p: Package) -> Seq<char> {
    if p.features@.len() == 0 {
        p.name@ + " = "@ + quoted(p.semver@) + "\n"@
    } else {
        p.name@ + " = "@ + "{ version = "@ + quoted(p.semver@) + ", features = ["@
            + feature_items(p.features@) + "] }\n"@
    }
}

/// The pin rows, in order.
pub open spec fn pin_lines(ps: Seq<Package>) -> Seq<char>
    decreases ps.len(),
{
    if ps.len() == 0 {
        Seq::empty()
    } else {
        pin_lines(ps.drop_last()) + pin_line(ps.last())
    }
}

/// The fixed synthetic package header: a throwaway identity, version 0.0.0,
/// and a stub library target. The inputs' own package sections are
/// discarded.
pub open spec fn manifest_header() -> Seq<char> {
    "[package]\nname = \"rules-rust-external-synthetic\"\nversion = \"0.0.0\"\nedition = \"2018\"\n\n[lib]\npath = \"fake_lib.rs\"\n\n[dependencies]\n"@
}

/// The whole synthetic workspace manifest: the fixed header, the merged
/// dependency table, the extra pins, and the patch section carried verbatim.
pub open spec fn manifest_text_of(
    deps: Seq<(String, String)>,
    ps: Seq<Package>,
    patch: Option<String>,
) -> Seq<char> {
    manifest_header() + dep_lines(deps) + pin_lines(ps) + (match patch {
        Some(p) => "\n"@ + p@,
        None => Seq::<char>::empty(),
    })
}

/// Appends `s` between double quotes.
pub(crate) fn append_quoted(out: &mut String, s: &str)
    ensures
        final(out)@ == old(out)@ + quoted(s@),
{
    let ghost base = out@;
    out.append("\"");
    out.append(s);
    out.append("\"");
    proof {
        reveal_strlit("\"");
        assert(out@ =~= base + quoted(s@));
    }
}

/// Serializes the synthetic workspace manifest.
pub fn synthetic_manifest(
    deps: &Dict<String>,
    packages: &Vec<Package>,
    patch: &Option<String>,
) -> (r: String)
    ensures
        r@ == manifest_text_of(deps.entries@, packages@, *patch),
{
    let mut out = String::from_str(
        "[package]\nname = \"rules-rust-external-synthetic\"\nversion = \"0.0.0\"\nedition = \"2018\"\n\n[lib]\npath = \"fake_lib.rs\"\n\n[dependencies]\n",
    );
    let dn = deps.entries.len();
    let mut i: usize = 0;
    let ghost base = out@;
    proof {
        assert(deps.entries@.subrange(0, 0) =~= Seq::<(String, String)>::empty());
        assert(out@ =~= base + dep_lines(deps.entries@.subrange(0, 0)));
    }
    while i < dn
        invariant
            i <= dn,
            dn == deps.entries@.len(),
            out@ == base + dep_lines(deps.entries@.subrange(0, i as int)),
        decreases dn - i,
    {
        let ghost mid = out@;
        out.append(deps.entries[i].0.as_str());
        out.append(" = ");
        out.append(deps.entries[i].1.as_str());
        out.append("\n");
        proof {
            assert(deps.entries@.subrange(0, i + 1).drop_last() =~= deps.entries@.subrange(
                0,
                i as int,
            ));
            assert(deps.entries@.subrange(0, i + 1).last() == deps.entries@[i as int]);
            assert(out@ =~= mid + dep_line(
                deps.entries@[i as int].0@,
                deps.entries@[i as int].1@,
            ));
            assert(out@ =~= base + dep_lines(deps.entries@.subrange(0, i + 1)));
        }
        i = i + 1;
    }
    proof {
        assert(deps.entries@.subrange(0, dn as int) =~= deps.entries@);
    }
    let ghost base2 = out@;
    let pn = packages.len();
    let mut k: usize = 0;
    proof {
        assert(packages@.subrange(0, 0) =~= Seq::<Package>::empty());
        assert(out@ =~= base2 + pin_lines(packages@.subrange(0, 0)));
    }
    while k < pn
        invariant
            k <= pn,
            pn == packages@.len(),
            out@ == base2 + pin_lines(packages@.subrange(0, k as int)),
        decreases pn - k,
    {
        let ghost mid = out@;
        let p = &packages[k];
        out.append(p.name.as_str());
        out.append(" = ");
        if p.features.len() == 0 {
            append_quoted(&mut out, p.semver.as_str());
            out.append("\n");
        } else {
            out.append("{ version = ");
            append_quoted(&mut out, p.semver.as_str());
            out.append(", features = [");
            let fn_ = p.features.len();
            let mut j: usize = 0;
            let ghost fbase = out@;
            proof {
                assert(p.features@.subrange(0, 0) =~= Seq::<String>::empty());
                assert(out@ =~= fbase + feature_items(p.features@.subrange(0, 0)));
            }
            while j < fn_
                invariant
                    j <= fn_,
                    p == packages@[k as int],
                    k < pn,
                    pn == packages@.len(),
                    fn_ == p.features@.len(),
                    out@ == fbase + feature_items(p.features@.subrange(0, j as int)),
                decreases fn_ - j,
            {
                let ghost fmid = out@;
                if j > 0 {
                    out.append(", ");
                }
                append_quoted(&mut out, p.features[j].as_str());
                proof {
                    assert(p.features@.subrange(0, j + 1).drop_last() =~= p.features@.subrange(
                        0,
                        j as int,
                    ));
                    assert(p.features@.subrange(0, j + 1).last() == p.features@[j as int]);
                    if j == 0 {
                        assert(p.features@.subrange(0, 1).len() == 1);
                        assert(p.features@.subrange(0, 1)[0] == p.features@[0]);
                        assert(out@ =~= fbase + feature_items(p.features@.subrange(0, 1)));
                    } else {
                        assert(out@ =~= fbase + feature_items(p.features@.subrange(0, j + 1)));
                    }
                }
                j = j + 1;
            }
            proof {
                assert(p.features@.subrange(0, fn_ as int) =~= p.features@);
            }
            out.append("] }\n");
        }
        proof {
            assert(packages@.subrange(0, k + 1).drop_last() =~= packages@.subrange(0, k as int));
            assert(packages@.subrange(0, k + 1).last() == packages@[k as int]);
            assert(out@ =~= mid + pin_line(packages@[k as int]));
            assert(out@ =~= base2 + pin_lines(packages@.subrange(0, k + 1)));
        }
        k = k + 1;
    }
    proof {
        assert(packages@.subrange(0, pn as int) =~= packages@);
    }
    match patch {
        Some(ptext) => {
            out.append("\n");
            out.append(ptext.as_str());
        },
        None => {},
    }
    proof {
        assert(out@ =~= manifest_text_of(deps.entries@, packages@, *patch));
    }
    out
}

} // verus!
