//! Platform-selector unification: each dependency edge is active on a subset
//! of the configured triples; edges active everywhere fall under the default
//! selector, the rest under a group keyed by exactly the triples they are
//! active on.
use crate::dict::{insert_string_set, string_set_contains, strings_sorted_unique, views_of};
use crate::strutil::str_eq;
use vstd::prelude::*;
use vstd::string::*;

verus! {

/// A platform selector: unconditional, or the listed subset of the
/// configured triples (in configuration order).
pub enum Selector {
    Default,
    Subset(Vec<String>),
}

/// One group of dependency labels under one selector.
pub struct DepGroup {
    pub selector: Selector,
    pub labels: Vec<String>,
}

/// The triples a selector stands for.
pub open spec fn selector_triples(s: Selector, triples: Seq<String>) -> Set<Seq<char>> {
    match s {
        Selector::Default => views_of(triples),
        Selector::Subset(ts) => views_of(ts@),
    }
}

/// A valid selector: unconditional, or a non-empty duplicate-free subset of
/// the configured triples.
pub open spec fn selector_ok(s: Selector, triples: Seq<String>) -> bool {
    match s {
        Selector::Default => true,
        Selector::Subset(ts) => {
            &&& ts@.len() > 0
            &&& forall|k: int|
                0 <= k < ts@.len() ==> views_of(triples).contains((#[trigger] ts@[k])@)
            &&& forall|k: int, l: int| 0 <= k < l < ts@.len() ==> (#[trigger] ts@[k])@ != (#[trigger] ts@[l])@
        },
    }
}

/// The triples (by view) on which `label` is active.
pub open spec fn active_of(triples: Seq<String>, lists: Seq<Vec<String>>, label: Seq<char>) -> Set<
    Seq<char>,
> {
    Set::new(
        |tr: Seq<char>|
            exists|t: int|
                0 <= t < triples.len() && (#[trigger] triples[t])@ == tr && views_of(
                    lists[t]@,
                ).contains(label),
    )
}

/// Whether `label` is active on any triple.
pub open spec fn occurs(lists: Seq<Vec<String>>, label: Seq<char>) -> bool {
    exists|t: int| 0 <= t < lists.len() && views_of((#[trigger] lists[t])@).contains(label)
}

/// One valid group: selector well formed, labels sorted and non-empty, and
/// every carried label active on exactly the group's triples.
pub open spec fn group_wf_one(g: DepGroup, triples: Seq<String>, lists: Seq<Vec<String>>) -> bool {
    &&& selector_ok(g.selector, triples)
    &&& strings_sorted_unique(g.labels@)
    &&& g.labels@.len() > 0
    &&& forall|x: Seq<char>|
        views_of(g.labels@).contains(x) ==> occurs(lists, x) && selector_triples(
            g.selector,
            triples,
        ) == active_of(triples, lists, x)
}

/// Every group is valid and its labels sorted; every carried label is active
/// on exactly the group's triples.
pub open spec fn groups_wf(r: Seq<DepGroup>, triples: Seq<String>, lists: Seq<Vec<String>>) -> bool {
    forall|g: int| 0 <= g < r.len() ==> group_wf_one(#[trigger] r[g], triples, lists)
}

/// `x` is one of the triples before `u` on which `label` is active.
pub open spec fn from_some_triple(
    x: String,
    triples: Seq<String>,
    lists: Seq<Vec<String>>,
    u: int,
    label: Seq<char>,
) -> bool {
    exists|w: int|
        0 <= w < u && x@ == (#[trigger] triples[w])@ && views_of(lists[w]@).contains(label)
}

/// The elements of `s_vec` are triples before `u` on which `label` is
/// active.
pub open spec fn svec_from(
    s_vec: Seq<String>,
    triples: Seq<String>,
    lists: Seq<Vec<String>>,
    u: int,
    label: Seq<char>,
) -> bool {
    forall|a: int|
        #![trigger s_vec[a]]
        0 <= a < s_vec.len() ==> from_some_triple(s_vec[a], triples, lists, u, label)
}

proof fn lemma_from_some_widen(
    x: String,
    triples: Seq<String>,
    lists: Seq<Vec<String>>,
    u: int,
    label: Seq<char>,
)
    requires
        from_some_triple(x, triples, lists, u, label),
    ensures
        from_some_triple(x, triples, lists, u + 1, label),
{
    let w0 = choose|w: int|
        0 <= w < u && x@ == (#[trigger] triples[w])@ && views_of(lists[w]@).contains(label);
    assert(0 <= w0 < u + 1 && x@ == triples[w0]@ && views_of(lists[w0]@).contains(label));
}

/// Structural equality of two selectors at the view level.
pub open spec fn sel_view_eq(a: Selector, b: Selector) -> bool {
    match (a, b) {
        (Selector::Default, Selector::Default) => true,
        (Selector::Subset(x), Selector::Subset(y)) => x@.len() == y@.len() && (forall|i: int|
            0 <= i < x@.len() ==> (#[trigger] x@[i])@ == y@[i]@),
        _ => false,
    }
}

/// Two selectors that name the same triples under every configuration.
pub open spec fn sel_same(a: Selector, b: Selector) -> bool {
    forall|trs: Seq<String>|
        #![trigger selector_triples(a, trs), selector_triples(b, trs)]
        selector_triples(a, trs) == selector_triples(b, trs)
}

/// Some group carries `label`.
pub open spec fn grouped(r: Seq<DepGroup>, label: Seq<char>) -> bool {
    exists|g: int| 0 <= g < r.len() && views_of((#[trigger] r[g]).labels@).contains(label)
}

/// Whether two selectors are the same at the view level; where they are,
/// they name the same triples whatever the configuration.
pub fn selectors_eq(a: &Selector, b: &Selector) -> (r: bool)
    ensures
        r == sel_view_eq(*a, *b),
        r ==> sel_same(*a, *b),
{
    match (a, b) {
        (Selector::Default, Selector::Default) => true,
        (Selector::Subset(x), Selector::Subset(y)) => {
            let nx = x.len();
            if nx != y.len() {
                proof {
                    assert(!sel_view_eq(Selector::Subset(*x), Selector::Subset(*y)));
                }
                return false;
            }
            let mut k: usize = 0;
            while k < nx
                invariant
                    k <= nx,
                    nx == x@.len(),
                    nx == y@.len(),
                    *a == Selector::Subset(*x),
                    *b == Selector::Subset(*y),
                    forall|j: int| 0 <= j < k ==> (#[trigger] x@[j])@ == y@[j]@,
                decreases nx - k,
            {
                if !str_eq(x[k].as_str(), y[k].as_str()) {
                    proof {
                        assert(!sel_view_eq(Selector::Subset(*x), Selector::Subset(*y)));
                    }
                    return false;
                }
                k = k + 1;
            }
            proof {
                assert(sel_view_eq(Selector::Subset(*x), Selector::Subset(*y)));
            }
            proof {
                assert forall|trs: Seq<String>|
                    #![trigger selector_triples(Selector::Subset(*x), trs), selector_triples(Selector::Subset(*y), trs)]
                    selector_triples(Selector::Subset(*x), trs) == selector_triples(
                    Selector::Subset(*y),
                    trs,
                ) by {
                    assert forall|tr: Seq<char>|
                        views_of(x@).contains(tr) == views_of(y@).contains(tr) by {
                        if views_of(x@).contains(tr) {
                            let i = choose|i: int| 0 <= i < x@.len() && (#[trigger] x@[i])@ == tr;
                            assert(y@[i]@ == tr);
                        }
                        if views_of(y@).contains(tr) {
                            let i = choose|i: int| 0 <= i < y@.len() && (#[trigger] y@[i])@ == tr;
                            assert(x@[i]@ == tr);
                        }
                    }
                    assert(views_of(x@) =~= views_of(y@));
                }
                assert(sel_same(Selector::Subset(*x), Selector::Subset(*y)));
            }
            true
        },
        _ => false,
    }
}

/// Whether some group already carries `label`.
fn label_grouped(groups: &Vec<DepGroup>, label: &str) -> (r: bool)
    ensures
        r == grouped(groups@, label@),
{
    let n = groups.len();
    let mut g: usize = 0;
    while g < n
        invariant
            g <= n,
            n == groups@.len(),
            forall|j: int| 0 <= j < g ==> !views_of((#[trigger] groups@[j]).labels@).contains(label@),
        decreases n - g,
    {
        if string_set_contains(&groups[g].labels, label) {
            return true;
        }
        g = g + 1;
    }
    false
}

/// Folds per-triple label lists into selector groups: a label active on
/// every triple falls under the default selector, any other label under the
/// group keyed by exactly the triples it is active on. Labels within a group
/// come out sorted; every active label lands in exactly one group.
pub fn unify(triples: &Vec<String>, lists: &Vec<Vec<String>>) -> (r: Vec<DepGroup>)
    requires
        lists@.len() == triples@.len(),
        forall|t: int| 0 <= t < lists@.len() ==> strings_sorted_unique((#[trigger] lists@[t])@),
        forall|i: int, j: int|
            0 <= i < j < triples@.len() ==> (#[trigger] triples@[i])@ != (#[trigger] triples@[j])@,
    ensures
        groups_wf(r@, triples@, lists@),
        forall|x: Seq<char>| occurs(lists@, x) ==> grouped(r@, x),
{
    let n = triples.len();
    let mut groups: Vec<DepGroup> = Vec::new();
    let mut t: usize = 0;
    while t < n
        invariant
            t <= n,
            n == triples@.len(),
            n == lists@.len(),
            forall|u: int| 0 <= u < lists@.len() ==> strings_sorted_unique((#[trigger] lists@[u])@),
            forall|i: int, j: int|
                0 <= i < j < triples@.len() ==> (#[trigger] triples@[i])@ != (
                #[trigger] triples@[j])@,
            groups_wf(groups@, triples@, lists@),
            forall|u: int, x: Seq<char>|
                #![trigger views_of(lists@[u]@).contains(x)]
                0 <= u < t && views_of(lists@[u]@).contains(x) ==> grouped(groups@, x),
        decreases n - t,
    {
        let m = lists[t].len();
        let mut k: usize = 0;
        while k < m
            invariant
                t < n,
                k <= m,
                n == triples@.len(),
                n == lists@.len(),
                m == lists@[t as int]@.len(),
                forall|u: int|
                    0 <= u < lists@.len() ==> strings_sorted_unique((#[trigger] lists@[u])@),
                forall|i: int, j: int|
                    0 <= i < j < triples@.len() ==> (#[trigger] triples@[i])@ != (
                    #[trigger] triples@[j])@,
                groups_wf(groups@, triples@, lists@),
                forall|u: int, x: Seq<char>|
                    #![trigger views_of(lists@[u]@).contains(x)]
                    0 <= u < t && views_of(lists@[u]@).contains(x) ==> grouped(groups@, x),
                forall|j: int|
                    0 <= j < k ==> grouped(groups@, (#[trigger] lists@[t as int]@[j])@),
            decreases m - k,
        {
            let label = &lists[t][k];
            if !label_grouped(&groups, label.as_str()) {
                place_label(&mut groups, triples, lists, label, t);
            }
            proof {
                assert(views_of(lists@[t as int]@).contains(lists@[t as int]@[k as int]@));
            }
            k = k + 1;
        }
        proof {
            assert forall|u: int, x: Seq<char>|
                #![trigger views_of(lists@[u]@).contains(x)]
                0 <= u < t + 1 && views_of(lists@[u]@).contains(x) implies grouped(
                groups@,
                x,
            ) by {
                if u == t as int {
                    let j = choose|j: int|
                        0 <= j < lists@[u]@.len() && (#[trigger] lists@[u]@[j])@ == x;
                    assert(grouped(groups@, lists@[t as int]@[j]@));
                }
            }
        }
        t = t + 1;
    }
    proof {
        assert forall|x: Seq<char>| occurs(lists@, x) implies grouped(groups@, x) by {
            let u = choose|u: int|
                0 <= u < lists@.len() && views_of((#[trigger] lists@[u])@).contains(x);
        }
    }
    groups
}

/// Puts one not-yet-grouped label into the group keyed by the triples it is
/// active on, creating the group as needed.
#[verifier::rlimit(80)]
fn place_label(
    groups: &mut Vec<DepGroup>,
    triples: &Vec<String>,
    lists: &Vec<Vec<String>>,
    label: &String,
    t_hit: usize,
)
    requires
        lists@.len() == triples@.len(),
        forall|t: int| 0 <= t < lists@.len() ==> strings_sorted_unique((#[trigger] lists@[t])@),
        forall|i: int, j: int|
            0 <= i < j < triples@.len() ==> (#[trigger] triples@[i])@ != (#[trigger] triples@[j])@,
        groups_wf(old(groups)@, triples@, lists@),
        t_hit < lists@.len(),
        views_of(lists@[t_hit as int]@).contains(label@),
    ensures
        groups_wf(final(groups)@, triples@, lists@),
        grouped(final(groups)@, label@),
        forall|x: Seq<char>| grouped(old(groups)@, x) ==> grouped(final(groups)@, x),
{
    let n = triples.len();
    let mut s_vec: Vec<String> = Vec::new();
    let mut all_so_far = true;
    let mut u: usize = 0;
    while u < n
        invariant
            u <= n,
            n == triples@.len(),
            n == lists@.len(),
            forall|i: int, j: int|
                0 <= i < j < triples@.len() ==> (#[trigger] triples@[i])@ != (
                #[trigger] triples@[j])@,
            svec_from(s_vec@, triples@, lists@, u as int, label@),
            forall|w: int|
                0 <= w < u && views_of((#[trigger] lists@[w])@).contains(label@) ==> views_of(
                    s_vec@,
                ).contains(triples@[w]@),
            all_so_far == (forall|w: int|
                0 <= w < u ==> views_of((#[trigger] lists@[w])@).contains(label@)),
            forall|a: int, b: int| 0 <= a < b < s_vec@.len() ==> (#[trigger] s_vec@[a])@ != (#[trigger] s_vec@[b])@,
        decreases n - u,
    {
        if string_set_contains(&lists[u], label.as_str()) {
            let ghost pre = s_vec@;
            s_vec.push(triples[u].clone());
            proof {
                assert(s_vec@ =~= pre.push(triples@[u as int]));
                assert forall|a: int| #![trigger s_vec@[a]] 0 <= a < s_vec@.len() implies
                    from_some_triple(s_vec@[a], triples@, lists@, u + 1, label@) by {
                    if a < pre.len() {
                        assert(s_vec@[a] == pre[a]);
                        assert(from_some_triple(pre[a], triples@, lists@, u as int, label@));
                        lemma_from_some_widen(pre[a], triples@, lists@, u as int, label@);
                    } else {
                        assert(s_vec@[a] == triples@[u as int]);
                        assert(0 <= u < u + 1 && triples@[u as int]@ == triples@[u as int]@
                            && views_of(lists@[u as int]@).contains(label@));
                        assert(from_some_triple(
                            triples@[u as int],
                            triples@,
                            lists@,
                            u + 1,
                            label@,
                        ));
                    }
                }
                assert(svec_from(s_vec@, triples@, lists@, u + 1, label@));
                assert forall|a: int, b: int| 0 <= a < b < s_vec@.len() implies (
                #[trigger] s_vec@[a])@ != (#[trigger] s_vec@[b])@ by {
                    if b == s_vec@.len() - 1 {
                        assert(pre[a] == s_vec@[a]);
                        assert(from_some_triple(pre[a], triples@, lists@, u as int, label@));
                        let w = choose|w: int|
                            0 <= w < u && pre[a]@ == (#[trigger] triples@[w])@ && views_of(
                                lists@[w]@,
                            ).contains(label@);
                        assert(triples@[w]@ != triples@[u as int]@);
                    }
                }
                assert forall|w: int|
                    0 <= w < u + 1 && views_of((#[trigger] lists@[w])@).contains(
                        label@,
                    ) implies views_of(s_vec@).contains(triples@[w]@) by {
                    if w < u {
                        let a = choose|a: int|
                            0 <= a < pre.len() && (#[trigger] pre[a])@ == triples@[w]@;
                        assert(s_vec@[a]@ == triples@[w]@);
                    } else {
                        assert(s_vec@[s_vec@.len() - 1]@ == triples@[w]@);
                    }
                }
            }
        } else {
            all_so_far = false;
            proof {
                assert forall|a: int| #![trigger s_vec@[a]] 0 <= a < s_vec@.len() implies
                    from_some_triple(s_vec@[a], triples@, lists@, u + 1, label@) by {
                    assert(from_some_triple(s_vec@[a], triples@, lists@, u as int, label@));
                    lemma_from_some_widen(s_vec@[a], triples@, lists@, u as int, label@);
                }
                assert(svec_from(s_vec@, triples@, lists@, u + 1, label@));
            }
        }
        u = u + 1;
    }
    let sel = if all_so_far {
        Selector::Default
    } else {
        Selector::Subset(s_vec)
    };
    let ghost gsel = sel;
    proof {
        assert forall|tr: Seq<char>|
            selector_triples(gsel, triples@).contains(tr) == active_of(
                triples@,
                lists@,
                label@,
            ).contains(tr) by {
            if all_so_far {
                if views_of(triples@).contains(tr) {
                    let w = choose|w: int|
                        0 <= w < triples@.len() && (#[trigger] triples@[w])@ == tr;
                    assert(views_of(lists@[w]@).contains(label@));
                    assert(active_of(triples@, lists@, label@).contains(tr));
                }
                if active_of(triples@, lists@, label@).contains(tr) {
                    let w = choose|w: int|
                        0 <= w < triples@.len() && (#[trigger] triples@[w])@ == tr && views_of(
                            lists@[w]@,
                        ).contains(label@);
                    assert(views_of(triples@).contains(tr));
                }
            } else {
                match gsel {
                    Selector::Default => {
                        assert(false);
                    },
                    Selector::Subset(sv) => {
                        if views_of(sv@).contains(tr) {
                            let a = choose|a: int|
                                0 <= a < sv@.len() && (#[trigger] sv@[a])@ == tr;
                            let w = choose|w: int|
                                0 <= w < triples@.len() && (#[trigger] sv@[a])@ == (
                                #[trigger] triples@[w])@ && views_of(lists@[w]@).contains(label@);
                            assert(active_of(triples@, lists@, label@).contains(tr));
                        }
                        if active_of(triples@, lists@, label@).contains(tr) {
                            let w = choose|w: int|
                                0 <= w < triples@.len() && (#[trigger] triples@[w])@ == tr
                                    && views_of(lists@[w]@).contains(label@);
                            assert(views_of(sv@).contains(triples@[w]@));
                        }
                    },
                }
            }
        }
        assert(selector_triples(gsel, triples@) =~= active_of(triples@, lists@, label@));
        assert(selector_ok(gsel, triples@)) by {
            match gsel {
                Selector::Default => {},
                Selector::Subset(sv) => {
                    assert(views_of(lists@[t_hit as int]@).contains(label@));
                    assert(views_of(sv@).contains(triples@[t_hit as int]@));
                    let a = choose|a: int|
                        0 <= a < sv@.len() && (#[trigger] sv@[a])@ == triples@[t_hit as int]@;
                    assert(sv@.len() > 0);
                    assert forall|k: int| 0 <= k < sv@.len() implies views_of(triples@).contains(
                        (#[trigger] sv@[k])@,
                    ) by {
                        let w = choose|w: int|
                            0 <= w < triples@.len() && (#[trigger] sv@[k])@ == (
                            #[trigger] triples@[w])@ && views_of(lists@[w]@).contains(label@);
                        assert(triples@[w]@ == sv@[k]@);
                    }
                },
            }
        }
    }
    // find a group with the same selector, else open a new one
    let gn = groups.len();
    let mut gi: usize = 0;
    let mut found = false;
    loop
        invariant_except_break
            !found,
        invariant
            gi <= gn,
            gn == groups@.len(),
            groups_wf(groups@, triples@, lists@),
            gsel == sel,
        ensures
            gn == groups@.len(),
            found ==> gi < gn && sel_same(groups@[gi as int].selector, gsel),
            !found ==> gi == gn,
        decreases gn - gi,
    {
        if gi >= gn {
            break ;
        }
        if selectors_eq(&groups[gi].selector, &sel) {
            found = true;
            break ;
        }
        gi = gi + 1;
    }
    if found {
        proof {
            assert(selector_triples(groups@[gi as int].selector, triples@) == active_of(
                triples@,
                lists@,
                label@,
            ));
            assert(occurs(lists@, label@));
        }
        add_label_to_group(groups, gi, label, Ghost(triples@), Ghost(lists@));
    } else {
        proof {
            assert(occurs(lists@, label@));
        }
        push_new_group(groups, sel, label, Ghost(triples@), Ghost(lists@));
    }
}

/// Adds a label to the group at `gi`, whose selector already names exactly
/// the label's active triples.
#[verifier::rlimit(60)]
fn add_label_to_group(
    groups: &mut Vec<DepGroup>,
    gi: usize,
    label: &String,
    Ghost(triples): Ghost<Seq<String>>,
    Ghost(lists): Ghost<Seq<Vec<String>>>,
)
    requires
        groups_wf(old(groups)@, triples, lists),
        gi < old(groups)@.len(),
        occurs(lists, label@),
        selector_triples(old(groups)@[gi as int].selector, triples) == active_of(
            triples,
            lists,
            label@,
        ),
    ensures
        groups_wf(final(groups)@, triples, lists),
        grouped(final(groups)@, label@),
        forall|x: Seq<char>| grouped(old(groups)@, x) ==> grouped(final(groups)@, x),
{
    let ghost pre_groups = groups@;
    let mut g = groups.remove(gi);
    insert_string_set(&mut g.labels, label.clone());
    let ghost g2 = g;
    groups.insert(gi, g);
    proof {
        assert(groups@ =~= pre_groups.update(gi as int, g2));
        assert(g2.selector == pre_groups[gi as int].selector);
        assert(views_of(g2.labels@) =~= views_of(pre_groups[gi as int].labels@).insert(label@));
        assert(views_of(g2.labels@).contains(label@));
        assert(g2.labels@.len() > 0) by {
            if g2.labels@.len() == 0 {
                assert(!views_of(g2.labels@).contains(label@));
            }
        }
        assert forall|x: Seq<char>| views_of(g2.labels@).contains(x) implies occurs(lists, x)
            && selector_triples(g2.selector, triples) == active_of(triples, lists, x) by {
            if x == label@ {
            } else {
                assert(views_of(pre_groups[gi as int].labels@).contains(x));
                assert(group_wf_one(pre_groups[gi as int], triples, lists));
            }
        }
        assert(group_wf_one(g2, triples, lists)) by {
            assert(group_wf_one(pre_groups[gi as int], triples, lists));
        }
        assert forall|gg: int| 0 <= gg < groups@.len() implies group_wf_one(
            #[trigger] groups@[gg],
            triples,
            lists,
        ) by {
            if gg == gi as int {
                assert(groups@[gg] == g2);
            } else {
                assert(groups@[gg] == pre_groups[gg]);
                assert(group_wf_one(pre_groups[gg], triples, lists));
            }
        }
        assert(grouped(groups@, label@)) by {
            assert(views_of(groups@[gi as int].labels@).contains(label@));
        }
        assert forall|x: Seq<char>| grouped(pre_groups, x) implies grouped(groups@, x) by {
            let gg = choose|gg: int|
                0 <= gg < pre_groups.len() && views_of(
                    (#[trigger] pre_groups[gg]).labels@,
                ).contains(x);
            if gg == gi as int {
                assert(views_of(groups@[gg].labels@).contains(x));
            } else {
                assert(views_of(groups@[gg].labels@).contains(x));
            }
        }
    }
}

/// Opens a new group under `sel`, which names exactly the label's active
/// triples.
fn push_new_group(
    groups: &mut Vec<DepGroup>,
    sel: Selector,
    label: &String,
    Ghost(triples): Ghost<Seq<String>>,
    Ghost(lists): Ghost<Seq<Vec<String>>>,
)
    requires
        groups_wf(old(groups)@, triples, lists),
        occurs(lists, label@),
        selector_ok(sel, triples),
        selector_triples(sel, triples) == active_of(triples, lists, label@),
    ensures
        groups_wf(final(groups)@, triples, lists),
        grouped(final(groups)@, label@),
        forall|x: Seq<char>| grouped(old(groups)@, x) ==> grouped(final(groups)@, x),
{
    let ghost pre_groups = groups@;
    let ghost gsel = sel;
    let mut labels: Vec<String> = Vec::new();
    insert_string_set(&mut labels, label.clone());
    let ghost glabels = labels;
    groups.push(DepGroup { selector: sel, labels });
    proof {
        assert(views_of(glabels@) =~= views_of(Seq::<String>::empty()).insert(label@));
        assert(views_of(glabels@).contains(label@));
        assert(glabels@.len() > 0) by {
            if glabels@.len() == 0 {
                assert(!views_of(glabels@).contains(label@));
            }
        }
        assert(groups@ =~= pre_groups.push(DepGroup { selector: gsel, labels: glabels }));
        assert forall|x: Seq<char>| views_of(glabels@).contains(x) implies occurs(lists, x)
            && selector_triples(gsel, triples) == active_of(triples, lists, x) by {
            assert(x == label@);
        }
        assert forall|gg: int| 0 <= gg < groups@.len() implies {
            &&& selector_ok((#[trigger] groups@[gg]).selector, triples)
            &&& strings_sorted_unique(groups@[gg].labels@)
            &&& groups@[gg].labels@.len() > 0
            &&& forall|x: Seq<char>|
                views_of(groups@[gg].labels@).contains(x) ==> occurs(lists, x)
                    && selector_triples(groups@[gg].selector, triples) == active_of(
                    triples,
                    lists,
                    x,
                )
        } by {
            if gg < pre_groups.len() {
                assert(groups@[gg] == pre_groups[gg]);
            } else {
                assert(groups@[gg] == DepGroup { selector: gsel, labels: glabels });
            }
        }
        assert(grouped(groups@, label@)) by {
            assert(views_of(groups@[groups@.len() - 1].labels@).contains(label@));
        }
        assert forall|x: Seq<char>| grouped(pre_groups, x) implies grouped(groups@, x) by {
            let gg = choose|gg: int|
                0 <= gg < pre_groups.len() && views_of(
                    (#[trigger] pre_groups[gg]).labels@,
                ).contains(x);
            assert(views_of(groups@[gg].labels@).contains(x));
        }
    }
}

} // verus!
