//! Multiplicity counts and sortedness over sequences, with the lemmas the
//! graph construction and ranking proofs rest on.
use vstd::prelude::*;

verus! {

/// Number of occurrences of `x` in `s`.
pub open spec fn occ<T>(s: Seq<T>, x: T) -> nat
    decreases s.len(),
{
    if s.len() == 0 {
        0
    } else {
        occ(s.drop_last(), x) + if s.last() == x {
            1nat
        } else {
            0nat
        }
    }
}

/// Ascending order (non-strict).
pub open spec fn sorted(s: Seq<usize>) -> bool {
    forall|a: int, b: int| 0 <= a < b < s.len() ==> s[a] <= s[b]
}

pub proof fn lemma_occ_push<T>(s: Seq<T>, y: T, x: T)
    ensures
        occ(s.push(y), x) == occ(s, x) + if y == x {
            1nat
        } else {
            0nat
        },
{
    assert(s.push(y).drop_last() =~= s);
}

pub proof fn lemma_occ_concat<T>(s: Seq<T>, t: Seq<T>, x: T)
    ensures
        occ(s + t, x) == occ(s, x) + occ(t, x),
    decreases t.len(),
{
    if t.len() == 0 {
        assert(s + t =~= s);
    } else {
        lemma_occ_concat(s, t.drop_last(), x);
        assert((s + t).drop_last() =~= s + t.drop_last());
    }
}

pub proof fn lemma_occ_take_step<T>(s: Seq<T>, i: int, x: T)
    requires
        0 <= i < s.len(),
    ensures
        occ(s.take(i + 1), x) == occ(s.take(i), x) + if s[i] == x {
            1nat
        } else {
            0nat
        },
{
    assert(s.take(i + 1).drop_last() =~= s.take(i));
    assert(s.take(i + 1).last() == s[i]);
}

/// A value occurs at least once exactly when the sequence contains it.
pub proof fn lemma_occ_contains<T>(s: Seq<T>, x: T)
    ensures
        occ(s, x) >= 1 <==> s.contains(x),
    decreases s.len(),
{
    if s.len() > 0 {
        lemma_occ_contains(s.drop_last(), x);
        if s.last() == x {
            assert(s.contains(x));
        } else if occ(s, x) >= 1 {
            let k = choose|k: int| 0 <= k < s.drop_last().len() && s.drop_last()[k] == x;
            assert(s[k] == x);
        } else if s.contains(x) {
            let k = choose|k: int| 0 <= k < s.len() && s[k] == x;
            assert(k < s.len() - 1);
            assert(s.drop_last()[k] == x);
        }
    }
}

/// A value standing nowhere in the sequence has multiplicity zero.
pub proof fn lemma_occ_zero<T>(s: Seq<T>, x: T)
    requires
        forall|i: int| 0 <= i < s.len() ==> (#[trigger] s[i]) != x,
    ensures
        occ(s, x) == 0,
    decreases s.len(),
{
    if s.len() > 0 {
        assert(forall|i: int| 0 <= i < s.len() - 1 ==> s.drop_last()[i] == s[i]);
        lemma_occ_zero(s.drop_last(), x);
    }
}

pub proof fn lemma_occ_drop_first<T>(s: Seq<T>, x: T)
    requires
        s.len() > 0,
    ensures
        occ(s.subrange(1, s.len() as int), x) == occ(s, x) - if s[0] == x {
            1nat
        } else {
            0nat
        },
{
    let tail = s.subrange(1, s.len() as int);
    let head = Seq::<T>::empty().push(s[0]);
    assert(s =~= head + tail);
    lemma_occ_concat(head, tail, x);
    lemma_occ_push(Seq::<T>::empty(), s[0], x);
}

/// Two ascending sequences with the same multiplicity for every value are
/// the same sequence.
pub proof fn lemma_sorted_occ_unique(s: Seq<usize>, t: Seq<usize>)
    requires
        sorted(s),
        sorted(t),
        forall|x: usize| occ(s, x) == occ(t, x),
    ensures
        s =~= t,
    decreases s.len(),
{
    if s.len() == 0 {
        if t.len() > 0 {
            lemma_occ_contains(t, t[0]);
            assert(t.contains(t[0]));
            assert(occ(s, t[0]) == occ(t, t[0]));
            lemma_occ_contains(s, t[0]);
        }
    } else {
        if t.len() == 0 {
            lemma_occ_contains(s, s[0]);
            lemma_occ_contains(t, s[0]);
        } else {
            // The heads are both the minimum of the shared multiset.
            lemma_occ_contains(s, s[0]);
            lemma_occ_contains(t, s[0]);
            let k1 = choose|k: int| 0 <= k < t.len() && t[k] == s[0];
            assert(t[0] <= s[0]);
            lemma_occ_contains(t, t[0]);
            lemma_occ_contains(s, t[0]);
            let k2 = choose|k: int| 0 <= k < s.len() && s[k] == t[0];
            assert(s[0] <= t[0]);
            assert(s[0] == t[0]);
            let s1 = s.subrange(1, s.len() as int);
            let t1 = t.subrange(1, t.len() as int);
            assert forall|x: usize| occ(s1, x) == occ(t1, x) by {
                lemma_occ_drop_first(s, x);
                lemma_occ_drop_first(t, x);
            }
            lemma_sorted_occ_unique(s1, t1);
            assert(s =~= Seq::<usize>::empty().push(s[0]) + s1);
            assert(t =~= Seq::<usize>::empty().push(t[0]) + t1);
        }
    }
}

} // verus!
