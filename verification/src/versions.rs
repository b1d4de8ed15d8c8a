//! Version requirements and version precedence. Requirement matching and the
//! precedence order are those of the upstream version library; this module
//! decides, per direct-dependency name, the canonical ("chosen") version: the
//! highest resolved version that satisfies every requirement on the name.
use crate::dict::{assoc_get, Dict};
use crate::model::{DepKind, Error, MemberDep, ResolvedPackage};
use crate::strutil::str_eq;
use vstd::prelude::*;
use vstd::string::*;

verus! {

/// How two version strings compare in the upstream library's total order.
#[derive(PartialEq, Eq, Structural, Clone, Copy, Debug)]
pub enum VersionOrder {
    Less,
    Equal,
    Greater,
}

pub uninterp spec fn version_cmp_of(a: Seq<char>, b: Seq<char>) -> Option<VersionOrder>;

pub uninterp spec fn req_match_of(req: Seq<char>, version: Seq<char>) -> Option<bool>;

/// Relies on semver::Version::parse and the total order of semver::Version
/// (its `Ord` impl): both depend on the two strings alone, and the order is
/// antisymmetric. `None` when either string is not a version.
#[verifier::external_body]
pub(crate) fn version_cmp(a: &str, b: &str) -> (r: Option<VersionOrder>)
    ensures
        r == version_cmp_of(a@, b@),
        r == Some(VersionOrder::Equal) ==> version_cmp_of(b@, a@) == Some(VersionOrder::Equal),
        r == Some(VersionOrder::Less) ==> version_cmp_of(b@, a@) == Some(VersionOrder::Greater),
        r == Some(VersionOrder::Greater) ==> version_cmp_of(b@, a@) == Some(VersionOrder::Less),
{
    let (va, vb) = match (semver::Version::parse(a), semver::Version::parse(b)) {
        (Ok(x), Ok(y)) => (x, y),
        _ => return None,
    };
    Some(match va.cmp(&vb) {
        core::cmp::Ordering::Less => VersionOrder::Less,
        core::cmp::Ordering::Equal => VersionOrder::Equal,
        core::cmp::Ordering::Greater => VersionOrder::Greater,
    })
}

/// Relies on semver::VersionReq::parse, semver::Version::parse and
/// semver::VersionReq::matches: the result depends on the two strings alone.
/// `None` when either string cannot be parsed.
#[verifier::external_body]
pub(crate) fn req_matches(req: &str, version: &str) -> (r: Option<bool>)
    ensures
        r == req_match_of(req@, version@),
{
    match (semver::VersionReq::parse(req), semver::Version::parse(version)) {
        (Ok(rq), Ok(v)) => Some(rq.matches(&v)),
        _ => None,
    }
}

/// Some workspace member has a normal-kind requirement on `name`.
pub open spec fn has_normal_req(deps: Seq<MemberDep>, name: Seq<char>) -> bool {
    exists|i: int|
        0 <= i < deps.len() && (#[trigger] deps[i]).kind == DepKind::Normal && deps[i].name@
            == name
}

/// Whether `ver` satisfies every normal requirement on `name`; `None` when
/// one of them cannot be evaluated.
pub open spec fn all_reqs_match(deps: Seq<MemberDep>, name: Seq<char>, ver: Seq<char>) -> Option<
    bool,
>
    decreases deps.len(),
{
    if deps.len() == 0 {
        Some(true)
    } else {
        let rest = all_reqs_match(deps.drop_first(), name, ver);
        if deps[0].kind == DepKind::Normal && deps[0].name@ == name {
            match req_match_of(deps[0].req@, ver) {
                None => None,
                Some(b) => match rest {
                    None => None,
                    Some(c) => Some(b && c),
                },
            }
        } else {
            rest
        }
    }
}

/// The versions of `name` in `resolved` (in order) that pass every
/// requirement: the candidates for the chosen version.
pub open spec fn spec_candidates(
    deps: Seq<MemberDep>,
    resolved: Seq<ResolvedPackage>,
    name: Seq<char>,
) -> Seq<Seq<char>>
    decreases resolved.len(),
{
    if resolved.len() == 0 {
        Seq::empty()
    } else {
        let rest = spec_candidates(deps, resolved.drop_first(), name);
        if resolved[0].name@ == name && has_normal_req(deps, name) && all_reqs_match(
            deps,
            name,
            resolved[0].version@,
        ) == Some(true) {
            seq![resolved[0].version@] + rest
        } else {
            rest
        }
    }
}

/// Folds candidates left to right, keeping the running maximum; a later
/// candidate replaces the current one unless it compares strictly lower.
pub open spec fn spec_fold_best(cands: Seq<Seq<char>>, cur: Seq<char>) -> Seq<char>
    decreases cands.len(),
{
    if cands.len() == 0 {
        cur
    } else {
        let next = if version_cmp_of(cands[0], cur) == Some(VersionOrder::Less) {
            cur
        } else {
            cands[0]
        };
        spec_fold_best(cands.drop_first(), next)
    }
}

/// The chosen version for `name`: the running maximum of its candidates, or
/// `None` where there is no candidate.
pub open spec fn spec_choice(
    deps: Seq<MemberDep>,
    resolved: Seq<ResolvedPackage>,
    name: Seq<char>,
) -> Option<Seq<char>> {
    let cands = spec_candidates(deps, resolved, name);
    if cands.len() == 0 {
        None
    } else {
        Some(spec_fold_best(cands.drop_first(), cands[0]))
    }
}

/// The chosen-version map read at the view level.
pub open spec fn get_version(d: Dict<String>, nm: Seq<char>) -> Option<Seq<char>> {
    match assoc_get(d.entries@, nm) {
        Some(v) => Some(v@),
        None => None,
    }
}

proof fn lemma_candidates_push(
    deps: Seq<MemberDep>,
    s: Seq<ResolvedPackage>,
    p: ResolvedPackage,
    name: Seq<char>,
)
    ensures
        spec_candidates(deps, s.push(p), name) == spec_candidates(deps, s, name) + (if p.name@
            == name && has_normal_req(deps, name) && all_reqs_match(deps, name, p.version@)
            == Some(true) {
            seq![p.version@]
        } else {
            Seq::<Seq<char>>::empty()
        }),
    decreases s.len(),
{
    let tail = if p.name@ == name && has_normal_req(deps, name) && all_reqs_match(
        deps,
        name,
        p.version@,
    ) == Some(true) {
        seq![p.version@]
    } else {
        Seq::<Seq<char>>::empty()
    };
    if s.len() == 0 {
        assert(s.push(p).drop_first() =~= s);
        assert(s.push(p)[0] == p);
        assert(spec_candidates(deps, s, name) =~= Seq::<Seq<char>>::empty());
        assert(spec_candidates(deps, s.push(p), name) =~= spec_candidates(deps, s, name) + tail);
    } else {
        assert(s.push(p).drop_first() =~= s.drop_first().push(p));
        lemma_candidates_push(deps, s.drop_first(), p, name);
        assert(s.push(p)[0] == s[0]);
        if s[0].name@ == name && has_normal_req(deps, name) && all_reqs_match(
            deps,
            name,
            s[0].version@,
        ) == Some(true) {
            assert(seq![s[0].version@] + (spec_candidates(deps, s.drop_first(), name) + tail) =~= (
            seq![s[0].version@] + spec_candidates(deps, s.drop_first(), name)) + tail);
        }
    }
}

proof fn lemma_fold_best_push(cands: Seq<Seq<char>>, v: Seq<char>, cur: Seq<char>)
    ensures
        spec_fold_best(cands.push(v), cur) == (if version_cmp_of(v, spec_fold_best(cands, cur))
            == Some(VersionOrder::Less) {
            spec_fold_best(cands, cur)
        } else {
            v
        }),
    decreases cands.len(),
{
    if cands.len() == 0 {
        assert(cands.push(v).drop_first() =~= cands);
        assert(cands.push(v)[0] == v);
        assert(spec_fold_best(cands, cur) == cur);
        let next0 = if version_cmp_of(v, cur) == Some(VersionOrder::Less) {
            cur
        } else {
            v
        };
        assert(spec_fold_best(cands.push(v), cur) == spec_fold_best(cands, next0));
        assert(spec_fold_best(cands, next0) == next0);
    } else {
        assert(cands.push(v).drop_first() =~= cands.drop_first().push(v));
        assert(cands.push(v)[0] == cands[0]);
        let next = if version_cmp_of(cands[0], cur) == Some(VersionOrder::Less) {
            cur
        } else {
            cands[0]
        };
        lemma_fold_best_push(cands.drop_first(), v, next);
    }
}

proof fn lemma_candidates_absent(
    deps: Seq<MemberDep>,
    resolved: Seq<ResolvedPackage>,
    name: Seq<char>,
)
    requires
        forall|t: int| 0 <= t < resolved.len() ==> (#[trigger] resolved[t]).name@ != name,
    ensures
        spec_candidates(deps, resolved, name).len() == 0,
    decreases resolved.len(),
{
    if resolved.len() > 0 {
        assert(forall|t: int|
            0 <= t < resolved.drop_first().len() ==> (#[trigger] resolved.drop_first()[t]).name@
                != name);
        lemma_candidates_absent(deps, resolved.drop_first(), name);
    }
}

/// Whether some member package has a normal-kind requirement on `name`.
pub fn has_req(deps: &Vec<MemberDep>, name: &str) -> (r: bool)
    ensures
        r == has_normal_req(deps@, name@),
{
    let n = deps.len();
    let mut i: usize = 0;
    while i < n
        invariant
            i <= n,
            n == deps@.len(),
            forall|j: int|
                0 <= j < i ==> !((#[trigger] deps@[j]).kind == DepKind::Normal && deps@[j].name@
                    == name@),
        decreases n - i,
    {
        if deps[i].kind == DepKind::Normal && str_eq(deps[i].name.as_str(), name) {
            return true;
        }
        i = i + 1;
    }
    false
}

/// Whether `ver` satisfies every normal requirement on `name`.
pub fn check_all_reqs(deps: &Vec<MemberDep>, name: &str, ver: &str) -> (r: Option<bool>)
    ensures
        r == all_reqs_match(deps@, name@, ver@),
{
    let n = deps.len();
    let mut i: usize = n;
    let mut acc: Option<bool> = Some(true);
    proof {
        assert(deps@.subrange(n as int, n as int) =~= Seq::<MemberDep>::empty());
    }
    while i > 0
        invariant
            i <= n,
            n == deps@.len(),
            acc == all_reqs_match(deps@.subrange(i as int, n as int), name@, ver@),
        decreases i,
    {
        let d = &deps[i - 1];
        let mut newacc = acc;
        if d.kind == DepKind::Normal && str_eq(d.name.as_str(), name) {
            match req_matches(d.req.as_str(), ver) {
                None => {
                    newacc = None;
                },
                Some(b) => {
                    match acc {
                        None => {
                            newacc = None;
                        },
                        Some(c) => {
                            newacc = Some(b && c);
                        },
                    }
                },
            }
        }
        proof {
            assert(deps@.subrange(i - 1, n as int).drop_first() =~= deps@.subrange(
                i as int,
                n as int,
            ));
            assert(deps@.subrange(i - 1, n as int)[0] == deps@[i - 1]);
        }
        acc = newacc;
        i = i - 1;
    }
    proof {
        assert(deps@.subrange(0, n as int) =~= deps@);
    }
    acc
}

/// The chosen-version map agrees with `spec_choice` for every name first
/// occurring among the first `upto` resolved packages, and is empty beyond.
pub open spec fn chosen_inv(
    deps: Seq<MemberDep>,
    resolved: Seq<ResolvedPackage>,
    upto: int,
    d: Dict<String>,
) -> bool {
    forall|nm: Seq<char>| #[trigger]
        get_version(d, nm) == (if exists|t: int|
            0 <= t < upto && (#[trigger] resolved[t]).name@ == nm {
            spec_choice(deps, resolved, nm)
        } else {
            None::<Seq<char>>
        })
}

proof fn lemma_inv_extend(
    deps: Seq<MemberDep>,
    resolved: Seq<ResolvedPackage>,
    i: int,
    d: Dict<String>,
)
    requires
        0 <= i < resolved.len(),
        chosen_inv(deps, resolved, i, d),
        get_version(d, resolved[i].name@) == spec_choice(deps, resolved, resolved[i].name@),
    ensures
        chosen_inv(deps, resolved, i + 1, d),
{
    assert forall|nm: Seq<char>| #[trigger]
        get_version(d, nm) == (if exists|t: int|
            0 <= t < i + 1 && (#[trigger] resolved[t]).name@ == nm {
            spec_choice(deps, resolved, nm)
        } else {
            None::<Seq<char>>
        }) by {
        if nm != resolved[i].name@ {
            if exists|t: int| 0 <= t < i + 1 && (#[trigger] resolved[t]).name@ == nm {
                let t = choose|t: int| 0 <= t < i + 1 && (#[trigger] resolved[t]).name@ == nm;
                assert(t < i);
                assert(exists|t: int| 0 <= t < i && (#[trigger] resolved[t]).name@ == nm);
            }
        } else {
            assert(exists|t: int| 0 <= t < i + 1 && (#[trigger] resolved[t]).name@ == nm);
        }
    }
}

/// Computes the chosen version for each direct-dependency name: the highest
/// resolved version that satisfies every normal requirement on the name.
/// Names with no normal requirement, and names whose versions all fail one,
/// get no entry; a requirement-bearing name that resolved but has no passing
/// version is `NoCommonVersion`; a version or requirement string the version
/// library cannot read is `ResolveFailed`.
pub fn chosen_versions(deps: &Vec<MemberDep>, resolved: &Vec<ResolvedPackage>) -> (r: Result<
    Dict<String>,
    Error,
>)
    ensures
        match r {
            Ok(d) => {
                &&& d.wf()
                &&& forall|nm: Seq<char>| #[trigger]
                    get_version(d, nm) == spec_choice(deps@, resolved@, nm)
                &&& forall|t: int|
                    0 <= t < resolved@.len() && has_normal_req(
                        deps@,
                        (#[trigger] resolved@[t]).name@,
                    ) ==> get_version(d, resolved@[t].name@) is Some
            },
            Err(e) => match e {
                Error::NoCommonVersion(n) => {
                    &&& has_normal_req(deps@, n@)
                    &&& spec_choice(deps@, resolved@, n@) is None
                    &&& exists|t: int| 0 <= t < resolved@.len() && (#[trigger] resolved@[t]).name@
                        == n@
                },
                Error::ResolveFailed(_) => (exists|t: int|
                    0 <= t < resolved@.len() && all_reqs_match(
                        deps@,
                        (#[trigger] resolved@[t]).name@,
                        resolved@[t].version@,
                    ) is None) || (exists|t: int, u: int|
                    0 <= t < resolved@.len() && 0 <= u < resolved@.len() && version_cmp_of(
                        (#[trigger] resolved@[t]).version@,
                        (#[trigger] resolved@[u]).version@,
                    ) is None),
                _ => false,
            },
        },
{
    let n = resolved.len();
    let mut d: Dict<String> = Dict::new();
    proof {
        assert(forall|nm: Seq<char>| #[trigger] assoc_get(d.entries@, nm) is None);
        assert(chosen_inv(deps@, resolved@, 0, d));
    }
    let mut i: usize = 0;
    while i < n
        invariant
            i <= n,
            n == resolved@.len(),
            d.wf(),
            chosen_inv(deps@, resolved@, i as int, d),
            forall|t: int|
                0 <= t < i && has_normal_req(deps@, (#[trigger] resolved@[t]).name@)
                    ==> get_version(d, resolved@[t].name@) is Some,
        decreases n - i,
    {
        let nm: &String = &resolved[i].name;
        let present = d.get(nm.as_str()).is_some();
        if present {
            proof {
                assert(get_version(d, nm@) is Some);
                lemma_inv_extend(deps@, resolved@, i as int, d);
            }
        } else {
            assert(get_version(d, nm@) is None);
            // fold the candidates for this name over the whole graph
            let hr = has_req(deps, nm.as_str());
            let mut cur: Option<String> = None;
            let ghost mut cur_idx: int = 0;
            let mut j: usize = 0;
            proof {
                assert(resolved@.subrange(0, 0) =~= Seq::<ResolvedPackage>::empty());
            }
            while j < n
                invariant
                    j <= n,
                    n == resolved@.len(),
                    nm@ == resolved@[i as int].name@,
                    i < n,
                    hr == has_normal_req(deps@, nm@),
                    ({
                        let cpre = spec_candidates(deps@, resolved@.subrange(0, j as int), nm@);
                        match cur {
                            None => cpre.len() == 0,
                            Some(c) => cpre.len() > 0 && c@ == spec_fold_best(
                                cpre.drop_first(),
                                cpre[0],
                            ),
                        }
                    }),
                    cur is Some ==> 0 <= cur_idx < n && cur->0@ == resolved@[cur_idx].version@,
                decreases n - j,
            {
                let ghost cpre = spec_candidates(deps@, resolved@.subrange(0, j as int), nm@);
                let q = &resolved[j];
                let mut is_cand = false;
                if hr && str_eq(q.name.as_str(), nm.as_str()) {
                    match check_all_reqs(deps, nm.as_str(), q.version.as_str()) {
                        None => {
                            return Err(
                                Error::ResolveFailed(String::from_str(
                                    "a version or requirement could not be read",
                                )),
                            );
                        },
                        Some(true) => {
                            is_cand = true;
                        },
                        Some(false) => {},
                    }
                }
                proof {
                    assert(resolved@.subrange(0, j + 1) =~= resolved@.subrange(0, j as int).push(
                        resolved@[j as int],
                    ));
                    lemma_candidates_push(
                        deps@,
                        resolved@.subrange(0, j as int),
                        resolved@[j as int],
                        nm@,
                    );
                }
                if is_cand {
                    proof {
                        assert(spec_candidates(deps@, resolved@.subrange(0, j + 1), nm@) =~= cpre
                            + seq![resolved@[j as int].version@]);
                    }
                    match cur {
                        None => {
                            proof {
                                assert(cpre + seq![resolved@[j as int].version@] =~= seq![
                                    resolved@[j as int].version@
                                ]);
                            }
                            cur = Some(q.version.clone());
                            proof {
                                cur_idx = j as int;
                            }
                        },
                        Some(c) => {
                            let ghost gc = c;
                            let cmp = version_cmp(q.version.as_str(), c.as_str());
                            proof {
                                assert((cpre + seq![resolved@[j as int].version@]).drop_first()
                                    =~= cpre.drop_first().push(resolved@[j as int].version@));
                                assert((cpre + seq![resolved@[j as int].version@])[0] == cpre[0]);
                                lemma_fold_best_push(
                                    cpre.drop_first(),
                                    resolved@[j as int].version@,
                                    cpre[0],
                                );
                            }
                            match cmp {
                                None => {
                                    return Err(
                                        Error::ResolveFailed(String::from_str(
                                            "a resolved version could not be compared",
                                        )),
                                    );
                                },
                                Some(VersionOrder::Less) => {
                                    cur = Some(c);
                                },
                                Some(_) => {
                                    cur = Some(q.version.clone());
                                    proof {
                                        cur_idx = j as int;
                                    }
                                },
                            }
                        },
                    }
                } else {
                    proof {
                        assert(spec_candidates(deps@, resolved@.subrange(0, j + 1), nm@) =~= cpre);
                    }
                }
                j = j + 1;
            }
            proof {
                assert(resolved@.subrange(0, n as int) =~= resolved@);
            }
            match cur {
                Some(c) => {
                    let ghost gc = c;
                    let ghost pre = d;
                    let res = d.insert(nm.clone(), c);
                    proof {
                        if res is Err {
                            crate::dict::lemma_assoc_get_none(pre.entries@, nm@);
                            assert(false);
                        }
                        assert(get_version(d, nm@) == Some(gc@));
                        assert(spec_choice(deps@, resolved@, nm@) == Some(gc@));
                        assert forall|nm2: Seq<char>| #[trigger]
                            get_version(d, nm2) == (if exists|t: int|
                                0 <= t < i + 1 && (#[trigger] resolved@[t]).name@ == nm2 {
                                spec_choice(deps@, resolved@, nm2)
                            } else {
                                None::<Seq<char>>
                            }) by {
                            if nm2 == nm@ {
                                assert(exists|t: int|
                                    0 <= t < i + 1 && (#[trigger] resolved@[t]).name@ == nm2);
                            } else {
                                assert(d.spec_get(nm2) == pre.spec_get(nm2));
                                assert(get_version(d, nm2) == get_version(pre, nm2));
                                if exists|t: int|
                                    0 <= t < i + 1 && (#[trigger] resolved@[t]).name@ == nm2 {
                                    let t = choose|t: int|
                                        0 <= t < i + 1 && (#[trigger] resolved@[t]).name@ == nm2;
                                    assert(t < i);
                                    assert(exists|t: int|
                                        0 <= t < i && (#[trigger] resolved@[t]).name@ == nm2);
                                }
                            }
                        }
                        assert(chosen_inv(deps@, resolved@, i + 1, d));
                    }
                },
                None => {
                    if hr {
                        let nm_out = nm.clone();
                        proof {
                            assert(spec_choice(deps@, resolved@, nm@) is None);
                            assert(resolved@[i as int].name@ == nm@);
                        }
                        return Err(Error::NoCommonVersion(nm_out));
                    }
                    proof {
                        assert(spec_choice(deps@, resolved@, nm@) is None);
                        lemma_inv_extend(deps@, resolved@, i as int, d);
                    }
                },
            }
        }
        i = i + 1;
    }
    proof {
        assert forall|nm: Seq<char>| #[trigger]
            get_version(d, nm) == spec_choice(deps@, resolved@, nm) by {
            if !(exists|t: int| 0 <= t < n && (#[trigger] resolved@[t]).name@ == nm) {
                lemma_candidates_absent(deps@, resolved@, nm);
            }
        }
    }
    Ok(d)
}

} // verus!
