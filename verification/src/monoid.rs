use vstd::prelude::*;

use crate::helper::LazySegtreeHelper;

verus! {

/// Left-to-right fold of the algebra's `op` over a sequence of aggregates,
/// with `e` as the value of the empty fold.  This is the mathematical meaning
/// of a range aggregate.
pub open spec fn fold_op<H: LazySegtreeHelper>(s: Seq<H::S>) -> H::S
    decreases s.len(),
{
    if s.len() == 0 {
        H::spec_e()
    } else if s.len() == 1 {
        s[0]
    } else {
        H::spec_op(fold_op::<H>(s.drop_last()), s.last())
    }
}

/// Pointwise application of an operator to every element of a sequence.
pub open spec fn map_f<H: LazySegtreeHelper>(f: H::F, s: Seq<H::S>) -> Seq<H::S> {
    Seq::new(s.len(), |i: int| H::spec_mapping(f, s[i]))
}

/// Application of an operator to the elements in the half-open index window
/// `[lo, hi)` only; elements outside the window are unchanged.
pub open spec fn map_range<H: LazySegtreeHelper>(
    f: H::F,
    s: Seq<H::S>,
    lo: int,
    hi: int,
) -> Seq<H::S> {
    Seq::new(
        s.len(),
        |i: int|
            if lo <= i < hi {
                H::spec_mapping(f, s[i])
            } else {
                s[i]
            },
    )
}

/// Folding a concatenation equals combining the two folds.
pub proof fn lemma_fold_concat<H: LazySegtreeHelper>(a: Seq<H::S>, b: Seq<H::S>)
    ensures
        fold_op::<H>(a + b) == H::spec_op(fold_op::<H>(a), fold_op::<H>(b)),
    decreases b.len(),
{
    if b.len() == 0 {
        assert(a + b =~= a);
        H::op_identity(fold_op::<H>(a));
    } else if a.len() == 0 {
        assert(a + b =~= b);
        H::op_identity(fold_op::<H>(b));
    } else if b.len() == 1 {
        assert((a + b).drop_last() =~= a);
        assert((a + b).last() == b[0]);
        assert((a + b).len() >= 2);
    } else {
        assert((a + b).drop_last() =~= a + b.drop_last());
        lemma_fold_concat::<H>(a, b.drop_last());
        H::op_associative(fold_op::<H>(a), fold_op::<H>(b.drop_last()), b.last());
    }
}

/// Folding after appending one element combines the fold with that element.
pub proof fn lemma_fold_push<H: LazySegtreeHelper>(s: Seq<H::S>, x: H::S)
    ensures
        fold_op::<H>(s.push(x)) == H::spec_op(fold_op::<H>(s), x),
{
    let single = seq![x];
    assert(s.push(x) =~= s + single);
    assert(fold_op::<H>(single) == x);
    lemma_fold_concat::<H>(s, single);
}

/// A sequence consisting only of identity aggregates folds to the identity.
pub proof fn lemma_fold_all_e<H: LazySegtreeHelper>(s: Seq<H::S>)
    requires
        forall|i: int| 0 <= i < s.len() ==> s[i] == H::spec_e(),
    ensures
        fold_op::<H>(s) == H::spec_e(),
    decreases s.len(),
{
    if s.len() <= 1 {
    } else {
        lemma_fold_all_e::<H>(s.drop_last());
        H::op_identity(H::spec_e());
    }
}

/// Mapping by the identity operator leaves a sequence unchanged.
pub proof fn lemma_map_f_id<H: LazySegtreeHelper>(s: Seq<H::S>)
    ensures
        map_f::<H>(H::spec_id(), s) == s,
{
    assert forall|i: int| 0 <= i < s.len() implies map_f::<H>(H::spec_id(), s)[i] == s[i] by {
        H::mapping_identity(s[i]);
    }
    assert(map_f::<H>(H::spec_id(), s) =~= s);
}

/// Mapping by a composed operator equals mapping by the parts in order.
pub proof fn lemma_map_f_compose<H: LazySegtreeHelper>(f: H::F, g: H::F, s: Seq<H::S>)
    ensures
        map_f::<H>(H::spec_composition(f, g), s) == map_f::<H>(f, map_f::<H>(g, s)),
{
    assert forall|i: int| 0 <= i < s.len() implies map_f::<H>(H::spec_composition(f, g), s)[i]
        == map_f::<H>(f, map_f::<H>(g, s))[i] by {
        H::composition_mapping(f, g, s[i]);
    }
    assert(map_f::<H>(H::spec_composition(f, g), s) =~= map_f::<H>(f, map_f::<H>(g, s)));
}

/// Pointwise mapping distributes over concatenation.
pub proof fn lemma_map_f_concat<H: LazySegtreeHelper>(f: H::F, a: Seq<H::S>, b: Seq<H::S>)
    ensures
        map_f::<H>(f, a + b) == map_f::<H>(f, a) + map_f::<H>(f, b),
{
    assert(map_f::<H>(f, a + b) =~= map_f::<H>(f, a) + map_f::<H>(f, b));
}

/// Applying the identity operator over any window leaves every element, and
/// hence every aggregate, unchanged.
pub proof fn lemma_map_range_id<H: LazySegtreeHelper>(s: Seq<H::S>, lo: int, hi: int)
    ensures
        map_range::<H>(H::spec_id(), s, lo, hi) == s,
{
    assert forall|i: int| 0 <= i < s.len() implies map_range::<H>(H::spec_id(), s, lo, hi)[i]
        == s[i] by {
        H::mapping_identity(s[i]);
    }
    assert(map_range::<H>(H::spec_id(), s, lo, hi) =~= s);
}

/// Applying `f` to the non-empty window `[l, r)` and then aggregating that
/// window yields the same value as applying `f` to the window's previous
/// aggregate, whenever that application is not marked failed.
pub proof fn lemma_update_equivalence<H: LazySegtreeHelper>(f: H::F, s: Seq<H::S>, l: int, r: int)
    requires
        0 <= l < r <= s.len(),
        !H::spec_is_failed(H::spec_mapping(f, fold_op::<H>(s.subrange(l, r)))),
    ensures
        fold_op::<H>(map_range::<H>(f, s, l, r).subrange(l, r)) == H::spec_mapping(
            f,
            fold_op::<H>(s.subrange(l, r)),
        ),
{
    assert(map_range::<H>(f, s, l, r).subrange(l, r) =~= map_f::<H>(f, s.subrange(l, r)));
    lemma_fold_map::<H>(f, s.subrange(l, r));
}

/// For a prefix-monotone predicate `g` (once it rejects a prefix aggregate,
/// it rejects every longer one), there is at most one boundary `m`: a
/// position whose prefix aggregate `g` accepts (or `m == l`) and whose
/// extension by one element `g` rejects (or `m == s.len()`).
pub proof fn lemma_max_right_unique<H: LazySegtreeHelper>(
    g: spec_fn(H::S) -> bool,
    s: Seq<H::S>,
    l: int,
    m1: int,
    m2: int,
)
    requires
        0 <= l,
        l <= m1 <= s.len(),
        l <= m2 <= s.len(),
        forall|i: int, j: int|
            #![trigger s.subrange(l, i), s.subrange(l, j)]
            l <= i <= j <= s.len() && g(fold_op::<H>(s.subrange(l, j))) ==> g(
                fold_op::<H>(s.subrange(l, i)),
            ),
        m1 > l ==> g(fold_op::<H>(s.subrange(l, m1))),
        m1 < s.len() ==> !g(fold_op::<H>(s.subrange(l, m1 + 1))),
        m2 > l ==> g(fold_op::<H>(s.subrange(l, m2))),
        m2 < s.len() ==> !g(fold_op::<H>(s.subrange(l, m2 + 1))),
    ensures
        m1 == m2,
{
    if m1 < m2 {
        assert(g(fold_op::<H>(s.subrange(l, m2))));
        assert(s.subrange(l, m1 + 1) == s.subrange(l, m1 + 1));
        assert(g(fold_op::<H>(s.subrange(l, m1 + 1))));
        assert(false);
    }
    if m2 < m1 {
        assert(g(fold_op::<H>(s.subrange(l, m1))));
        assert(s.subrange(l, m2 + 1) == s.subrange(l, m2 + 1));
        assert(g(fold_op::<H>(s.subrange(l, m2 + 1))));
        assert(false);
    }
}

/// The mirror of `lemma_max_right_unique`: for a suffix-monotone predicate
/// there is at most one boundary start of a suffix ending at `r`.
pub proof fn lemma_min_left_unique<H: LazySegtreeHelper>(
    g: spec_fn(H::S) -> bool,
    s: Seq<H::S>,
    r: int,
    m1: int,
    m2: int,
)
    requires
        r <= s.len(),
        0 <= m1 <= r,
        0 <= m2 <= r,
        forall|i: int, j: int|
            #![trigger s.subrange(i, r), s.subrange(j, r)]
            0 <= i <= j <= r && g(fold_op::<H>(s.subrange(i, r))) ==> g(
                fold_op::<H>(s.subrange(j, r)),
            ),
        m1 < r ==> g(fold_op::<H>(s.subrange(m1, r))),
        m1 > 0 ==> !g(fold_op::<H>(s.subrange(m1 - 1, r))),
        m2 < r ==> g(fold_op::<H>(s.subrange(m2, r))),
        m2 > 0 ==> !g(fold_op::<H>(s.subrange(m2 - 1, r))),
    ensures
        m1 == m2,
{
    if m1 < m2 {
        assert(g(fold_op::<H>(s.subrange(m1, r))));
        assert(s.subrange(m2 - 1, r) == s.subrange(m2 - 1, r));
        assert(g(fold_op::<H>(s.subrange(m2 - 1, r))));
        assert(false);
    }
    if m2 < m1 {
        assert(g(fold_op::<H>(s.subrange(m2, r))));
        assert(s.subrange(m1 - 1, r) == s.subrange(m1 - 1, r));
        assert(g(fold_op::<H>(s.subrange(m1 - 1, r))));
        assert(false);
    }
}

/// When applying `f` to the fold of a non-empty sequence does not produce a
/// failed aggregate, the application distributes over the whole fold.  This
/// is the sequence-level consequence of the `mapping_op` obligation, and the
/// reason a range application that never fails can update an aggregate
/// without touching the elements below it.
pub proof fn lemma_fold_map<H: LazySegtreeHelper>(f: H::F, s: Seq<H::S>)
    requires
        s.len() >= 1,
        !H::spec_is_failed(H::spec_mapping(f, fold_op::<H>(s))),
    ensures
        H::spec_mapping(f, fold_op::<H>(s)) == fold_op::<H>(map_f::<H>(f, s)),
    decreases s.len(),
{
    if s.len() == 1 {
        assert(map_f::<H>(f, s).len() == 1);
        assert(map_f::<H>(f, s)[0] == H::spec_mapping(f, s[0]));
    } else {
        let a = s.drop_last();
        let x = s.last();
        H::mapping_op(f, fold_op::<H>(a), x);
        lemma_fold_map::<H>(f, a);
        let m = map_f::<H>(f, s);
        assert(m.drop_last() =~= map_f::<H>(f, a));
        assert(m.last() == H::spec_mapping(f, x));
        assert(m.len() >= 2);
    }
}

} // verus!
