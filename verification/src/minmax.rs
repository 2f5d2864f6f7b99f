use vstd::prelude::*;

verus! {

/// Least element of a non-empty integer sequence.
pub open spec fn imin(s: Seq<int>) -> int
    decreases s.len(),
{
    if s.len() <= 1 {
        s[0]
    } else {
        let m = imin(s.drop_last());
        if s.last() < m {
            s.last()
        } else {
            m
        }
    }
}

/// Greatest element of a non-empty integer sequence.
pub open spec fn imax(s: Seq<int>) -> int
    decreases s.len(),
{
    if s.len() <= 1 {
        s[0]
    } else {
        let m = imax(s.drop_last());
        if s.last() > m {
            s.last()
        } else {
            m
        }
    }
}

/// The extremes bound every element and are both attained.
pub proof fn lemma_minmax(s: Seq<int>)
    requires
        s.len() > 0,
    ensures
        forall|i: int| 0 <= i < s.len() ==> imin(s) <= s[i] && s[i] <= imax(s),
        exists|i: int| 0 <= i < s.len() && s[i] == imin(s),
        exists|i: int| 0 <= i < s.len() && s[i] == imax(s),
    decreases s.len(),
{
    if s.len() > 1 {
        lemma_minmax(s.drop_last());
        assert(forall|i: int| 0 <= i < s.len() - 1 ==> s.drop_last()[i] == s[i]);
        let j = choose|j: int| 0 <= j < s.drop_last().len() && s.drop_last()[j] == imin(
            s.drop_last(),
        );
        let k = choose|k: int| 0 <= k < s.drop_last().len() && s.drop_last()[k] == imax(
            s.drop_last(),
        );
        if s.last() < imin(s.drop_last()) {
            assert(s[s.len() - 1] == imin(s));
        } else {
            assert(s[j] == imin(s));
        }
        if s.last() > imax(s.drop_last()) {
            assert(s[s.len() - 1] == imax(s));
        } else {
            assert(s[k] == imax(s));
        }
    } else {
        assert(s[0] == imin(s));
        assert(s[0] == imax(s));
    }
}

/// Shifting every element by a constant shifts both extremes by it.
pub proof fn lemma_minmax_shift(s: Seq<int>, t: Seq<int>, c: int)
    requires
        s.len() > 0,
        t.len() == s.len(),
        forall|i: int| 0 <= i < s.len() ==> t[i] == s[i] + c,
    ensures
        imin(t) == imin(s) + c,
        imax(t) == imax(s) + c,
    decreases s.len(),
{
    if s.len() > 1 {
        assert(forall|i: int| 0 <= i < s.len() - 1 ==> s.drop_last()[i] == s[i]
            && t.drop_last()[i] == t[i]);
        lemma_minmax_shift(s.drop_last(), t.drop_last(), c);
        assert(t.last() == s.last() + c);
    }
}

/// Negating every element swaps and negates the extremes.
pub proof fn lemma_minmax_neg(s: Seq<int>, t: Seq<int>)
    requires
        s.len() > 0,
        t.len() == s.len(),
        forall|i: int| 0 <= i < s.len() ==> t[i] == -s[i],
    ensures
        imin(t) == -imax(s),
        imax(t) == -imin(s),
    decreases s.len(),
{
    if s.len() > 1 {
        assert(forall|i: int| 0 <= i < s.len() - 1 ==> s.drop_last()[i] == s[i]
            && t.drop_last()[i] == t[i]);
        lemma_minmax_neg(s.drop_last(), t.drop_last());
        assert(t.last() == -s.last());
    }
}

/// Pointwise-equal sequences have the same extremes.
pub proof fn lemma_minmax_eq(s: Seq<int>, t: Seq<int>)
    requires
        s.len() > 0,
        t.len() == s.len(),
        forall|i: int| 0 <= i < s.len() ==> t[i] == s[i],
    ensures
        imin(t) == imin(s),
        imax(t) == imax(s),
{
    lemma_minmax_shift(s, t, 0);
}

} // verus!
