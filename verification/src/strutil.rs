//! Lexicographic order on strings (by Unicode scalar value, which agrees with
//! the byte order of their UTF-8 encodings), with executable comparison and
//! sorting. Every ordered container of the crate rests on this order.
use vstd::multiset::Multiset;
use vstd::prelude::*;
use vstd::string::*;

verus! {

/// Strict lexicographic order on character sequences.
pub open spec fn lex_lt(a: Seq<char>, b: Seq<char>) -> bool
    decreases a.len(),
{
    if b.len() == 0 {
        false
    } else if a.len() == 0 {
        true
    } else if a[0] == b[0] {
        lex_lt(a.drop_first(), b.drop_first())
    } else {
        (a[0] as u32) < (b[0] as u32)
    }
}

/// Reflexive closure of `lex_lt`.
pub open spec fn lex_le(a: Seq<char>, b: Seq<char>) -> bool {
    lex_lt(a, b) || a == b
}

/// Where two sequences agree on their first `i` characters, the order is
/// decided at position `i`.
pub proof fn lemma_lex_lt_at(a: Seq<char>, b: Seq<char>, i: int)
    requires
        0 <= i <= a.len(),
        i <= b.len(),
        forall|j: int| 0 <= j < i ==> a[j] == b[j],
    ensures
        i < a.len() && i < b.len() && a[i] != b[i] ==> (lex_lt(a, b) <==> (a[i] as u32) < (
        b[i] as u32)),
        i == a.len() ==> (lex_lt(a, b) <==> a.len() < b.len()),
        i == b.len() && i < a.len() ==> !lex_lt(a, b),
    decreases i,
{
    if i > 0 {
        let a1 = a.drop_first();
        let b1 = b.drop_first();
        assert(forall|j: int| 0 <= j < i - 1 ==> a1[j] == b1[j]);
        lemma_lex_lt_at(a1, b1, i - 1);
        assert(a[0] == b[0]);
        assert(lex_lt(a, b) == lex_lt(a1, b1));
    }
}

/// `lex_lt` is irreflexive.
pub proof fn lemma_lex_lt_irrefl(a: Seq<char>)
    ensures
        !lex_lt(a, a),
    decreases a.len(),
{
    if a.len() > 0 {
        lemma_lex_lt_irrefl(a.drop_first());
    }
}

/// `lex_lt` is transitive.
pub proof fn lemma_lex_lt_trans(a: Seq<char>, b: Seq<char>, c: Seq<char>)
    requires
        lex_lt(a, b),
        lex_lt(b, c),
    ensures
        lex_lt(a, c),
    decreases a.len(), b.len(), c.len(),
{
    if a.len() > 0 && b.len() > 0 && c.len() > 0 {
        if a[0] == b[0] && b[0] == c[0] {
            lemma_lex_lt_trans(a.drop_first(), b.drop_first(), c.drop_first());
        }
    }
}

/// The order is total: two sequences are ordered one way or the other, or are
/// equal.
pub proof fn lemma_lex_lt_total(a: Seq<char>, b: Seq<char>)
    ensures
        lex_lt(a, b) || lex_lt(b, a) || a == b,
    decreases a.len(),
{
    if a.len() == 0 && b.len() == 0 {
        assert(a =~= b);
    } else if a.len() > 0 && b.len() > 0 && a[0] == b[0] {
        lemma_lex_lt_total(a.drop_first(), b.drop_first());
        if a.drop_first() == b.drop_first() {
            assert(a =~= seq![a[0]] + a.drop_first());
            assert(b =~= seq![b[0]] + b.drop_first());
        }
    } else if a.len() > 0 && b.len() > 0 {
        vstd::utf8::char_u32_cast(a[0], a[0] as u32);
        vstd::utf8::char_u32_cast(b[0], b[0] as u32);
        assert((a[0] as u32) != (b[0] as u32));
    }
}

/// Executable equality of string slices.
pub fn str_eq(a: &str, b: &str) -> (r: bool)
    ensures
        r == (a@ == b@),
{
    let an = a.unicode_len();
    let bn = b.unicode_len();
    if an != bn {
        return false;
    }
    let mut i: usize = 0;
    while i < an
        invariant
            i <= an,
            an == a@.len(),
            an == b@.len(),
            forall|j: int| 0 <= j < i ==> a@[j] == b@[j],
        decreases an - i,
    {
        if a.get_char(i) != b.get_char(i) {
            return false;
        }
        i = i + 1;
    }
    proof {
        assert(a@ =~= b@);
    }
    true
}

/// Executable test of `lex_lt` on string slices.
pub fn str_lt(a: &str, b: &str) -> (r: bool)
    ensures
        r == lex_lt(a@, b@),
{
    let an = a.unicode_len();
    let bn = b.unicode_len();
    let mut i: usize = 0;
    while i < an && i < bn
        invariant
            i <= an,
            i <= bn,
            an == a@.len(),
            bn == b@.len(),
            forall|j: int| 0 <= j < i ==> a@[j] == b@[j],
        decreases an - i,
    {
        let ca = a.get_char(i);
        let cb = b.get_char(i);
        if ca != cb {
            proof {
                lemma_lex_lt_at(a@, b@, i as int);
            }
            return (ca as u32) < (cb as u32);
        }
        i = i + 1;
    }
    proof {
        lemma_lex_lt_at(a@, b@, i as int);
    }
    an < bn
}

/// Reflexive-order test on string slices.
pub fn str_le(a: &str, b: &str) -> (r: bool)
    ensures
        r == lex_le(a@, b@),
{
    if str_eq(a, b) {
        true
    } else {
        str_lt(a, b)
    }
}

/// A sequence of strings in ascending lexicographic order (adjacent duplicates
/// permitted).
pub open spec fn strings_sorted(s: Seq<String>) -> bool {
    forall|i: int, j: int| 0 <= i < j < s.len() ==> lex_le(#[trigger] s[i]@, #[trigger] s[j]@)
}

/// Sorts a vector of strings in ascending lexicographic order, keeping exactly
/// the original strings (as a multiset).
pub fn sort_strings(v: &mut Vec<String>)
    ensures
        strings_sorted(final(v)@),
        final(v)@.to_multiset() == old(v)@.to_multiset(),
{
    let mut out: Vec<String> = Vec::new();
    let n = v.len();
    let mut k: usize = 0;
    proof {
        broadcast use vstd::seq_lib::group_to_multiset_ensures;

        assert(v@.subrange(0, 0) =~= Seq::<String>::empty());
        assert(v@.subrange(0, 0).to_multiset() =~= Multiset::<String>::empty());
        assert(out@.to_multiset() =~= v@.subrange(0, 0).to_multiset());
    }
    while k < n
        invariant
            k <= n,
            n == v@.len(),
            strings_sorted(out@),
            out@.to_multiset() == v@.subrange(0, k as int).to_multiset(),
        decreases n - k,
    {
        let x = v[k].clone();
        assert(x == v@[k as int]);
        insert_sorted(&mut out, x);
        proof {
            broadcast use vstd::seq_lib::group_to_multiset_ensures;

            assert(v@.subrange(0, k + 1) =~= v@.subrange(0, k as int).push(v@[k as int]));
            assert(v@.subrange(0, k + 1).to_multiset() =~= v@.subrange(
                0,
                k as int,
            ).to_multiset().insert(v@[k as int]));
        }
        k = k + 1;
    }
    proof {
        assert(v@.subrange(0, n as int) =~= v@);
    }
    *v = out;
}

/// Inserts `x` into an already sorted vector, keeping it sorted.
fn insert_sorted(out: &mut Vec<String>, x: String)
    requires
        strings_sorted(old(out)@),
    ensures
        strings_sorted(final(out)@),
        final(out)@.to_multiset() == old(out)@.to_multiset().insert(x),
{
    let mut pos: usize = 0;
    let n = out.len();
    loop
        invariant
            pos <= n,
            n == out@.len(),
            strings_sorted(out@),
            forall|j: int| 0 <= j < pos ==> lex_le(#[trigger] out@[j]@, x@),
        ensures
            pos <= n,
            n == out@.len(),
            forall|j: int| 0 <= j < pos ==> lex_le(#[trigger] out@[j]@, x@),
            pos < n ==> lex_lt(x@, out@[pos as int]@),
        decreases n - pos,
    {
        if pos >= n {
            break ;
        }
        if !str_le(&out[pos], &x) {
            proof {
                lemma_lex_lt_total(out@[pos as int]@, x@);
            }
            break ;
        }
        pos = pos + 1;
    }
    let ghost old_seq = out@;
    out.insert(pos, x);
    proof {
        broadcast use vstd::seq_lib::group_to_multiset_ensures;

        assert(out@ =~= old_seq.subrange(0, pos as int).push(x) + old_seq.subrange(
            pos as int,
            old_seq.len() as int,
        ));
        lemma_insert_multiset(old_seq, x, pos as int);
        assert forall|i: int, j: int| 0 <= i < j < out@.len() implies lex_le(
            #[trigger] out@[i]@,
            #[trigger] out@[j]@,
        ) by {
            let xi = out@[i]@;
            let xj = out@[j]@;
            if i < pos && j == pos {
                assert(lex_le(xi, x@));
            } else if i == pos && j > pos {
                assert(xj == old_seq[j - 1]@);
                if pos < old_seq.len() {
                    assert(lex_lt(x@, old_seq[pos as int]@));
                    if j - 1 > pos {
                        assert(lex_le(old_seq[pos as int]@, xj));
                        if old_seq[pos as int]@ == xj {
                            assert(lex_lt(x@, xj));
                        } else {
                            lemma_lex_lt_trans(x@, old_seq[pos as int]@, xj);
                        }
                    }
                }
            } else if i < pos && j > pos {
                assert(xi == old_seq[i]@ && xj == old_seq[j - 1]@);
                assert(lex_le(xi, xj));
            } else if i > pos && j > pos {
                assert(xi == old_seq[i - 1]@ && xj == old_seq[j - 1]@);
                assert(lex_le(xi, xj));
            } else if i < pos && j < pos {
                assert(xi == old_seq[i]@ && xj == old_seq[j]@);
                assert(lex_le(xi, xj));
            }
        }
    }
}

/// Inserting into the middle of a sequence adds one element to its multiset.
pub proof fn lemma_insert_multiset<A>(s: Seq<A>, x: A, pos: int)
    requires
        0 <= pos <= s.len(),
    ensures
        (s.subrange(0, pos).push(x) + s.subrange(pos, s.len() as int)).to_multiset()
            == s.to_multiset().insert(x),
{
    broadcast use vstd::seq_lib::group_to_multiset_ensures;

    let left = s.subrange(0, pos);
    let right = s.subrange(pos, s.len() as int);
    vstd::seq_lib::lemma_multiset_commutative(left.push(x), right);
    vstd::seq_lib::lemma_multiset_commutative(left, right);
    assert(left + right =~= s);
    assert(left.push(x).to_multiset() =~= left.to_multiset().insert(x));
    assert((left.push(x) + right).to_multiset() =~= left.to_multiset().insert(x).add(
        right.to_multiset(),
    ));
    assert(left.to_multiset().insert(x).add(right.to_multiset()) =~= left.to_multiset().add(
        right.to_multiset(),
    ).insert(x));
}

} // verus!
