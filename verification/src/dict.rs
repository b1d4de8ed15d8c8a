//! Ordered string-keyed dictionaries and ordered string sets, kept as sorted
//! vectors. Iteration order over `entries` is the ascending key order, which
//! is what makes every emitted collection deterministic.
use crate::strutil::{lemma_lex_lt_total, lemma_lex_lt_trans, lex_lt, str_eq, str_lt};
use vstd::multiset::Multiset;
use vstd::prelude::*;
use vstd::string::*;

verus! {

/// Keys in strictly ascending order (hence unique).
pub open spec fn entries_sorted<V>(s: Seq<(String, V)>) -> bool {
    forall|i: int, j: int| 0 <= i < j < s.len() ==> lex_lt(#[trigger] s[i].0@, #[trigger] s[j].0@)
}

/// First value associated with key `k`, scanning left to right.
pub open spec fn assoc_get<V>(s: Seq<(String, V)>, k: Seq<char>) -> Option<V>
    decreases s.len(),
{
    if s.len() == 0 {
        None
    } else if s[0].0@ == k {
        Some(s[0].1)
    } else {
        assoc_get(s.drop_first(), k)
    }
}

/// Where the first `i` entries all miss `k`, the lookup is decided at `i`.
pub proof fn lemma_assoc_get_at<V>(s: Seq<(String, V)>, k: Seq<char>, i: int)
    requires
        0 <= i <= s.len(),
        forall|j: int| 0 <= j < i ==> (#[trigger] s[j].0@) != k,
    ensures
        i < s.len() && s[i].0@ == k ==> assoc_get(s, k) == Some(s[i].1),
        i == s.len() ==> assoc_get(s, k) is None,
    decreases i,
{
    if i > 0 {
        let s1 = s.drop_first();
        assert(forall|j: int| 0 <= j < i - 1 ==> (#[trigger] s1[j].0@) != k);
        lemma_assoc_get_at(s1, k, i - 1);
        assert(s[0].0@ != k);
    }
}

/// A lookup misses exactly when no entry carries the key.
pub proof fn lemma_assoc_get_none<V>(s: Seq<(String, V)>, k: Seq<char>)
    ensures
        (assoc_get(s, k) is None) <==> (forall|i: int| 0 <= i < s.len() ==> (#[trigger] s[i].0@)
            != k),
    decreases s.len(),
{
    if forall|i: int| 0 <= i < s.len() ==> (#[trigger] s[i].0@) != k {
        lemma_assoc_get_at(s, k, s.len() as int);
    }
    if assoc_get(s, k) is None && s.len() > 0 {
        let s1 = s.drop_first();
        lemma_assoc_get_none(s1, k);
        assert forall|i: int| 0 <= i < s.len() implies (#[trigger] s[i].0@) != k by {
            if i > 0 {
                assert(s[i] == s1[i - 1]);
            }
        }
    }
}

/// A successful lookup returns the value of some entry carrying the key.
pub proof fn lemma_assoc_get_member<V>(s: Seq<(String, V)>, k: Seq<char>)
    ensures
        match assoc_get(s, k) {
            Some(v) => exists|i: int|
                0 <= i < s.len() && (#[trigger] s[i]).0@ == k && s[i].1 == v,
            None => true,
        },
    decreases s.len(),
{
    if s.len() > 0 {
        if s[0].0@ == k {
            assert(s[0].0@ == k && s[0].1 == assoc_get(s, k)->0);
        } else {
            lemma_assoc_get_member(s.drop_first(), k);
            match assoc_get(s.drop_first(), k) {
                Some(v) => {
                    let i = choose|i: int|
                        0 <= i < s.drop_first().len() && (#[trigger] s.drop_first()[i]).0@ == k
                            && s.drop_first()[i].1 == v;
                    assert(s[i + 1] == s.drop_first()[i]);
                },
                None => {},
            }
        }
    }
}

/// Two positions of `s` carry the same key, namely `k`.
pub open spec fn has_dup_key<V>(s: Seq<(String, V)>, k: Seq<char>) -> bool {
    exists|i: int, j: int|
        0 <= i < j < s.len() && (#[trigger] s[i].0@) == (#[trigger] s[j].0@) && s[j].0@ == k
}

/// An ordered map from strings to `V`, its entries sorted by strictly
/// ascending key.
pub struct Dict<V> {
    pub entries: Vec<(String, V)>,
}

impl<V> Dict<V> {
    /// Well-formed: keys strictly ascending.
    pub open spec fn wf(self) -> bool {
        entries_sorted(self.entries@)
    }

    /// The value under key `k`, if any.
    pub open spec fn spec_get(self, k: Seq<char>) -> Option<V> {
        assoc_get(self.entries@, k)
    }

    /// The empty dictionary.
    pub fn new() -> (d: Dict<V>)
        ensures
            d.wf(),
            d.entries@.len() == 0,
    {
        Dict { entries: Vec::new() }
    }

    pub fn len(&self) -> (n: usize)
        ensures
            n == self.entries@.len(),
    {
        self.entries.len()
    }

    /// Looks `k` up.
    pub fn get<'a>(&'a self, k: &str) -> (r: Option<&'a V>)
        ensures
            match r {
                Some(v) => self.spec_get(k@) == Some(*v),
                None => self.spec_get(k@) is None,
            },
    {
        let n = self.entries.len();
        let mut i: usize = 0;
        while i < n
            invariant
                i <= n,
                n == self.entries@.len(),
                forall|j: int| 0 <= j < i ==> (#[trigger] self.entries@[j].0@) != k@,
            decreases n - i,
        {
            if str_eq(self.entries[i].0.as_str(), k) {
                proof {
                    lemma_assoc_get_at(self.entries@, k@, i as int);
                }
                return Some(&self.entries[i].1);
            }
            i = i + 1;
        }
        proof {
            lemma_assoc_get_at(self.entries@, k@, n as int);
        }
        None
    }

    /// Adds `(k, v)`; refuses a key already present, leaving the map as it
    /// was.
    pub fn insert(&mut self, k: String, v: V) -> (r: Result<(), (String, V)>)
        requires
            old(self).wf(),
        ensures
            match r {
                Ok(_) => {
                    &&& final(self).wf()
                    &&& final(self).entries@.to_multiset() == old(self).entries@.to_multiset().insert(
                        (k, v),
                    )
                    &&& forall|i: int|
                        0 <= i < old(self).entries@.len() ==> (#[trigger] old(
                            self,
                        ).entries@[i].0@) != k@
                    &&& final(self).spec_get(k@) == Some(v)
                    &&& forall|q: Seq<char>|
                        q != k@ ==> #[trigger] final(self).spec_get(q) == old(self).spec_get(q)
                },
                Err(p) => {
                    &&& *final(self) == *old(self)
                    &&& p == (k, v)
                    &&& exists|i: int|
                        0 <= i < old(self).entries@.len() && (#[trigger] old(
                            self,
                        ).entries@[i].0@) == k@
                },
            },
    {
        let n = self.entries.len();
        let mut pos: usize = 0;
        loop
            invariant
                pos <= n,
                n == self.entries@.len(),
                entries_sorted(self.entries@),
                forall|j: int| 0 <= j < pos ==> lex_lt(#[trigger] self.entries@[j].0@, k@),
            ensures
                pos <= n,
                n == self.entries@.len(),
                forall|j: int| 0 <= j < pos ==> lex_lt(#[trigger] self.entries@[j].0@, k@),
                pos < n ==> !lex_lt(self.entries@[pos as int].0@, k@),
            decreases n - pos,
        {
            if pos >= n {
                break ;
            }
            if !str_lt(&self.entries[pos].0, k.as_str()) {
                break ;
            }
            pos = pos + 1;
        }
        if pos < n && str_eq(self.entries[pos].0.as_str(), k.as_str()) {
            return Err((k, v));
        }
        proof {
            if pos < n {
                lemma_lex_lt_total(self.entries@[pos as int].0@, k@);
                assert(lex_lt(k@, self.entries@[pos as int].0@));
            }
            assert forall|i: int| 0 <= i < self.entries@.len() implies (#[trigger] self
                .entries@[i].0@) != k@ by {
                if i < pos {
                    crate::strutil::lemma_lex_lt_irrefl(k@);
                } else {
                    if self.entries@[i].0@ == k@ {
                        if i > pos {
                            assert(lex_lt(self.entries@[pos as int].0@, self.entries@[i].0@));
                        }
                        crate::strutil::lemma_lex_lt_irrefl(k@);
                    }
                }
            }
        }
        let ghost old_seq = self.entries@;
        let ghost kv = (k, v);
        self.entries.insert(pos, (k, v));
        proof {
            assert(self.entries@ =~= old_seq.subrange(0, pos as int).push(kv) + old_seq.subrange(
                pos as int,
                old_seq.len() as int,
            ));
            crate::strutil::lemma_insert_multiset(old_seq, kv, pos as int);
            assert forall|i: int, j: int| 0 <= i < j < self.entries@.len() implies lex_lt(
                #[trigger] self.entries@[i].0@,
                #[trigger] self.entries@[j].0@,
            ) by {
                let xi = self.entries@[i].0@;
                let xj = self.entries@[j].0@;
                if i < pos && j == pos {
                    assert(lex_lt(xi, kv.0@));
                } else if i == pos && j > pos {
                    assert(xj == old_seq[j - 1].0@);
                    if pos < old_seq.len() {
                        if j - 1 > pos {
                            assert(lex_lt(old_seq[pos as int].0@, xj));
                            lemma_lex_lt_trans(kv.0@, old_seq[pos as int].0@, xj);
                        }
                    }
                } else if i < pos && j > pos {
                    assert(xi == old_seq[i].0@ && xj == old_seq[j - 1].0@);
                } else if i > pos && j > pos {
                    assert(xi == old_seq[i - 1].0@ && xj == old_seq[j - 1].0@);
                } else if i < pos && j < pos {
                    assert(xi == old_seq[i].0@ && xj == old_seq[j].0@);
                }
            }
            assert forall|j: int| 0 <= j < pos implies (#[trigger] self.entries@[j].0@)
                != kv.0@ by {
                assert(self.entries@[j] == old_seq[j]);
                crate::strutil::lemma_lex_lt_irrefl(kv.0@);
            }
            lemma_assoc_get_at(self.entries@, kv.0@, pos as int);
            assert(self.entries@[pos as int] == kv);
            assert forall|q: Seq<char>| q != kv.0@ implies assoc_get(self.entries@, q) == assoc_get(
                old_seq,
                q,
            ) by {
                lemma_assoc_get_none(old_seq, q);
                if assoc_get(old_seq, q) is None {
                    assert forall|i: int| 0 <= i < self.entries@.len() implies (#[trigger] self
                        .entries@[i].0@) != q by {
                        if i < pos {
                            assert(self.entries@[i] == old_seq[i]);
                        } else if i > pos {
                            assert(self.entries@[i] == old_seq[i - 1]);
                        }
                    }
                    lemma_assoc_get_none(self.entries@, q);
                } else {
                    let t = choose|t: int|
                        0 <= t < old_seq.len() && (#[trigger] old_seq[t].0@) == q;
                    assert forall|u: int| 0 <= u < old_seq.len() && u != t implies (
                    #[trigger] old_seq[u].0@) != q by {
                        if old_seq[u].0@ == q {
                            if u < t {
                                assert(lex_lt(old_seq[u].0@, old_seq[t].0@));
                            } else {
                                assert(lex_lt(old_seq[t].0@, old_seq[u].0@));
                            }
                            crate::strutil::lemma_lex_lt_irrefl(q);
                        }
                    }
                    lemma_assoc_get_at(old_seq, q, t);
                    let t2: int = if t < pos {
                        t
                    } else {
                        t + 1
                    };
                    assert(self.entries@[t2] == old_seq[t]);
                    assert forall|j: int| 0 <= j < t2 implies (#[trigger] self.entries@[j].0@)
                        != q by {
                        if j < pos {
                            assert(self.entries@[j] == old_seq[j]);
                        } else if j > pos {
                            assert(self.entries@[j] == old_seq[j - 1]);
                        } else {
                            assert(self.entries@[j] == kv);
                        }
                    }
                    lemma_assoc_get_at(self.entries@, q, t2);
                }
            }
        }
        Ok(())
    }

    /// Builds the dictionary from a list of pairs; refuses duplicate keys,
    /// naming one.
    pub fn from_pairs(pairs: &mut Vec<(String, V)>) -> (r: Result<Dict<V>, String>)
        ensures
            match r {
                Ok(d) => {
                    &&& d.wf()
                    &&& d.entries@.to_multiset() == old(pairs)@.to_multiset()
                    &&& forall|i: int, j: int|
                        0 <= i < j < old(pairs)@.len() ==> (#[trigger] old(pairs)@[i].0@) != (
                        #[trigger] old(pairs)@[j].0@)
                },
                Err(k) => has_dup_key(old(pairs)@, k@),
            },
    {
        let ghost orig = pairs@;
        let n0 = pairs.len();
        assert(orig.len() <= usize::MAX);
        let mut d = Dict::<V>::new();
        let mut done: usize = 0;
        proof {
            broadcast use vstd::seq_lib::group_to_multiset_ensures;

            assert(pairs@ =~= orig.subrange(0, orig.len() as int));
            assert(orig.subrange(0, 0) =~= Seq::<(String, V)>::empty());
            assert(d.entries@.to_multiset() =~= orig.subrange(0, 0).to_multiset());
        }
        while pairs.len() > 0
            invariant
                orig == old(pairs)@,
                done <= orig.len(),
                orig.len() <= usize::MAX,
                pairs@ == orig.subrange(done as int, orig.len() as int),
                d.wf(),
                d.entries@.to_multiset() == orig.subrange(0, done as int).to_multiset(),
                forall|i: int, j: int|
                    0 <= i < j < done ==> (#[trigger] orig[i].0@) != (#[trigger] orig[j].0@),
            decreases pairs@.len(),
        {
            let p = pairs.remove(0);
            assert(p == orig[done as int]);
            let k_copy = p.0.clone();
            let ghost prefix = orig.subrange(0, done as int);
            let ghost pre_entries = d.entries@;
            let res = d.insert(p.0, p.1);
            match res {
                Ok(_) => {
                    proof {
                        broadcast use vstd::seq_lib::group_to_multiset_ensures;

                        assert(orig.subrange(0, done + 1) =~= prefix.push(orig[done as int]));
                        assert forall|i: int, j: int| 0 <= i < j < done + 1 implies (
                        #[trigger] orig[i].0@) != (#[trigger] orig[j].0@) by {
                            if j == done as int {
                                if orig[i].0@ == orig[j].0@ {
                                    assert(prefix[i] == orig[i]);
                                    assert(prefix.to_multiset().contains(orig[i]));
                                    assert(pre_entries.to_multiset().contains(orig[i]));
                                    assert(pre_entries.contains(orig[i]));
                                    let t0 = choose|t: int|
                                        0 <= t < pre_entries.len() && pre_entries[t] == orig[i];
                                    assert(pre_entries[t0].0@ != orig[done as int].0@);
                                }
                            }
                        }
                        assert(pairs@ =~= orig.subrange(done + 1, orig.len() as int));
                    }
                    done = done + 1;
                },
                Err(_) => {
                    proof {
                        broadcast use vstd::seq_lib::group_to_multiset_ensures;

                        let w = choose|t: int|
                            0 <= t < d.entries@.len() && (#[trigger] d.entries@[t].0@)
                                == orig[done as int].0@;
                        let e = d.entries@[w];
                        assert(d.entries@.contains(e));
                        assert(prefix.to_multiset().contains(e));
                        assert(prefix.contains(e));
                        let i0 = choose|t: int| 0 <= t < prefix.len() && prefix[t] == e;
                        assert(prefix[i0] == orig[i0]);
                        assert(0 <= i0 < done);
                        assert(done < orig.len());
                        assert(orig[i0].0@ == orig[done as int].0@);
                        assert(orig[done as int].0@ == k_copy@);
                        assert(has_dup_key(orig, k_copy@));
                    }
                    return Err(k_copy);
                },
            }
        }
        proof {
            assert(done == orig.len());
            assert(orig.subrange(0, done as int) =~= orig);
        }
        Ok(d)
    }
}

/// Strings in strictly ascending order: a sorted set.
pub open spec fn strings_sorted_unique(s: Seq<String>) -> bool {
    forall|i: int, j: int| 0 <= i < j < s.len() ==> lex_lt(#[trigger] s[i]@, #[trigger] s[j]@)
}

/// The set of character sequences a list of strings denotes.
pub open spec fn views_of(s: Seq<String>) -> Set<Seq<char>> {
    Set::new(|k: Seq<char>| exists|i: int| 0 <= i < s.len() && (#[trigger] s[i]@) == k)
}

/// Inserts `x` into a sorted duplicate-free vector, dropping it if already
/// present: ordered-set insertion.
pub fn insert_string_set(v: &mut Vec<String>, x: String)
    requires
        strings_sorted_unique(old(v)@),
    ensures
        strings_sorted_unique(final(v)@),
        views_of(final(v)@) == views_of(old(v)@).insert(x@),
{
    let n = v.len();
    let mut pos: usize = 0;
    loop
        invariant
            pos <= n,
            n == v@.len(),
            strings_sorted_unique(v@),
            forall|j: int| 0 <= j < pos ==> lex_lt(#[trigger] v@[j]@, x@),
        ensures
            pos <= n,
            n == v@.len(),
            forall|j: int| 0 <= j < pos ==> lex_lt(#[trigger] v@[j]@, x@),
            pos < n ==> !lex_lt(v@[pos as int]@, x@),
        decreases n - pos,
    {
        if pos >= n {
            break ;
        }
        if !str_lt(&v[pos], x.as_str()) {
            break ;
        }
        pos = pos + 1;
    }
    if pos < n && str_eq(v[pos].as_str(), x.as_str()) {
        proof {
            assert(views_of(v@).contains(x@));
            assert(views_of(v@) =~= views_of(v@).insert(x@));
        }
        return ;
    }
    proof {
        if pos < n {
            lemma_lex_lt_total(v@[pos as int]@, x@);
            assert(lex_lt(x@, v@[pos as int]@));
        }
    }
    let ghost old_seq = v@;
    let ghost gx = x;
    v.insert(pos, x);
    proof {
        assert(v@ =~= old_seq.subrange(0, pos as int).push(gx) + old_seq.subrange(
            pos as int,
            old_seq.len() as int,
        ));
        assert forall|i: int, j: int| 0 <= i < j < v@.len() implies lex_lt(
            #[trigger] v@[i]@,
            #[trigger] v@[j]@,
        ) by {
            let xi = v@[i]@;
            let xj = v@[j]@;
            if i < pos && j == pos {
                assert(lex_lt(xi, gx@));
            } else if i == pos && j > pos {
                assert(xj == old_seq[j - 1]@);
                if j - 1 > pos {
                    assert(lex_lt(old_seq[pos as int]@, xj));
                    lemma_lex_lt_trans(gx@, old_seq[pos as int]@, xj);
                }
            } else if i < pos && j > pos {
                assert(xi == old_seq[i]@ && xj == old_seq[j - 1]@);
            } else if i > pos && j > pos {
                assert(xi == old_seq[i - 1]@ && xj == old_seq[j - 1]@);
            } else if i < pos && j < pos {
                assert(xi == old_seq[i]@ && xj == old_seq[j]@);
            }
        }
        assert forall|k: Seq<char>| #[trigger]
            views_of(v@).contains(k) implies views_of(old_seq).insert(x@).contains(k) by {
            let i = choose|i: int| 0 <= i < v@.len() && (#[trigger] v@[i]@) == k;
            if i < pos {
                assert(old_seq[i]@ == k);
            } else if i > pos {
                assert(old_seq[i - 1]@ == k);
            }
        }
        assert forall|k: Seq<char>| #[trigger]
            views_of(old_seq).insert(x@).contains(k) implies views_of(v@).contains(k) by {
            if k == x@ {
                assert(v@[pos as int]@ == k);
            } else {
                let i = choose|i: int| 0 <= i < old_seq.len() && (#[trigger] old_seq[i]@) == k;
                if i < pos {
                    assert(v@[i]@ == k);
                } else {
                    assert(v@[i + 1]@ == k);
                }
            }
        }
        assert(views_of(v@) =~= views_of(old_seq).insert(x@));
    }
}

/// Whether a sorted duplicate-free vector holds `x`.
pub fn string_set_contains(v: &Vec<String>, x: &str) -> (r: bool)
    ensures
        r == views_of(v@).contains(x@),
{
    let n = v.len();
    let mut i: usize = 0;
    while i < n
        invariant
            i <= n,
            n == v@.len(),
            forall|j: int| 0 <= j < i ==> (#[trigger] v@[j]@) != x@,
        decreases n - i,
    {
        if str_eq(v[i].as_str(), x) {
            proof {
                assert(views_of(v@).contains(x@));
            }
            return true;
        }
        i = i + 1;
    }
    proof {
        assert(!views_of(v@).contains(x@));
    }
    false
}

} // verus!
