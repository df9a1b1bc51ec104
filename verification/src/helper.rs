use vstd::prelude::*;

verus! {

/// The algebraic structure a lazy segment tree is parameterized by: a monoid
/// of aggregate values `S` under `op` with identity `e`, and a monoid of
/// operators `F` under `composition` with identity `id`, acting on aggregates
/// through `mapping`.
///
/// Each executable operation is tied to a specification-level function
/// (`spec_op`, `spec_e`, ...), and the laws the tree's correctness rests on
/// are stated as proof obligations that every implementation must discharge:
/// associativity of `op`, the identity laws, compatibility of `composition`
/// with `mapping`, and a conditional distributivity law.
///
/// `is_failed` supports the "segment tree beats" extension: an aggregate for
/// which `mapping` could not produce an exact result is marked failed, and the
/// tree repairs it by pushing the pending operator down and recombining the
/// children.  The distributivity obligation `mapping_op` is therefore only
/// required to hold when the mapped combination is not marked failed; an
/// algebra without beats simply makes `spec_is_failed` constantly false.
pub trait LazySegtreeHelper: Sized {
    /// Aggregate values stored in the tree.
    type S: Copy;

    /// Operators applied lazily to whole subtrees.
    type F: Copy;

    /// Meaning of the binary operation on aggregates.
    spec fn spec_op(x: Self::S, y: Self::S) -> Self::S;

    /// Meaning of the identity aggregate.
    spec fn spec_e() -> Self::S;

    /// Meaning of applying an operator to an aggregate.
    spec fn spec_mapping(f: Self::F, x: Self::S) -> Self::S;

    /// Meaning of operator composition; `spec_composition(f, g)` acts as `g`
    /// first, then `f`.
    spec fn spec_composition(f: Self::F, g: Self::F) -> Self::F;

    /// Meaning of the identity operator.
    spec fn spec_id() -> Self::F;

    /// Whether an aggregate is marked as failed and must be repaired by
    /// pushing down and recombining (segment tree beats).
    spec fn spec_is_failed(x: Self::S) -> bool;

    /// `op` is associative.
    proof fn op_associative(x: Self::S, y: Self::S, z: Self::S)
        ensures
            Self::spec_op(Self::spec_op(x, y), z) == Self::spec_op(x, Self::spec_op(y, z)),
    ;

    /// `e` is a two-sided identity for `op`.
    proof fn op_identity(x: Self::S)
        ensures
            Self::spec_op(Self::spec_e(), x) == x,
            Self::spec_op(x, Self::spec_e()) == x,
    ;

    /// `id` is a two-sided identity for `composition`.
    proof fn composition_identity(f: Self::F)
        ensures
            Self::spec_composition(f, Self::spec_id()) == f,
            Self::spec_composition(Self::spec_id(), f) == f,
    ;

    /// The identity operator maps every aggregate to itself.
    proof fn mapping_identity(x: Self::S)
        ensures
            Self::spec_mapping(Self::spec_id(), x) == x,
    ;

    /// Applying a composed operator equals applying the parts in order.
    proof fn composition_mapping(f: Self::F, g: Self::F, x: Self::S)
        ensures
            Self::spec_mapping(Self::spec_composition(f, g), x) == Self::spec_mapping(
                f,
                Self::spec_mapping(g, x),
            ),
    ;

    /// Whenever applying `f` to a combination does not produce a failed
    /// aggregate, the application distributes over `op`, and neither side was
    /// failed either.  The hereditary clause lets the distributivity be
    /// propagated down a whole subtree whose root did not fail.
    proof fn mapping_op(f: Self::F, x: Self::S, y: Self::S)
        ensures
            !Self::spec_is_failed(Self::spec_mapping(f, Self::spec_op(x, y))) ==> {
                &&& Self::spec_mapping(f, Self::spec_op(x, y)) == Self::spec_op(
                    Self::spec_mapping(f, x),
                    Self::spec_mapping(f, y),
                )
                &&& !Self::spec_is_failed(Self::spec_mapping(f, x))
                &&& !Self::spec_is_failed(Self::spec_mapping(f, y))
            },
    ;

    /// Combine two adjacent aggregates, left-to-right order preserved.
    fn op(x: &Self::S, y: &Self::S) -> (r: Self::S)
        ensures
            r == Self::spec_op(*x, *y),
    ;

    /// The identity aggregate.
    fn e() -> (r: Self::S)
        ensures
            r == Self::spec_e(),
    ;

    /// Apply an operator to an aggregate.
    fn mapping(f: &Self::F, x: &Self::S) -> (r: Self::S)
        ensures
            r == Self::spec_mapping(*f, *x),
    ;

    /// Compose two operators; the first argument is the newer one and acts
    /// last.
    fn composition(f: &Self::F, g: &Self::F) -> (r: Self::F)
        ensures
            r == Self::spec_composition(*f, *g),
    ;

    /// The identity operator.
    fn id() -> (r: Self::F)
        ensures
            r == Self::spec_id(),
    ;

    /// Report whether an aggregate is marked failed (segment tree beats).
    fn is_failed(x: &Self::S) -> (r: bool)
        ensures
            r == Self::spec_is_failed(*x),
    ;
}

} // verus!
