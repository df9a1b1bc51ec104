use vstd::prelude::*;

use vstd::arithmetic::div_mod::{
    lemma_div_denominator, lemma_fundamental_div_mod, lemma_mod_bound,
};
use vstd::arithmetic::mul::{lemma_mul_inequality, lemma_mul_is_distributive_add_other_way};
use vstd::arithmetic::power2::{
    lemma2_to64, lemma_pow2_adds, lemma_pow2_pos, lemma_pow2_strictly_increases, pow2,
};

use crate::helper::LazySegtreeHelper;
use crate::monoid::{
    fold_op, lemma_fold_all_e, lemma_fold_concat, lemma_fold_map, lemma_fold_push,
    lemma_map_f_compose, lemma_map_f_concat, lemma_map_f_id, map_f, map_range,
};

verus! {

/// `j` lies in the subtree rooted at `k` of the 1-indexed complete binary
/// tree whose children of `k` are `2k` and `2k + 1`: some number of halvings
/// of `j` reaches `k`.
spec fn in_sub(k: int, j: int) -> bool {
    exists|d: nat| #[trigger] (j / pow2(d) as int) == k
}

/// Every node is in its own subtree.
proof fn lemma_in_sub_self(k: int)
    ensures
        in_sub(k, k),
{
    lemma2_to64();
    assert(k / pow2(0) as int == k);
}

/// Nodes within a subtree are at least as large as its root, and strictly
/// inside it at least twice as large.
proof fn lemma_in_sub_bound(k: int, j: int)
    requires
        in_sub(k, j),
        1 <= k,
    ensures
        j >= k,
        j != k ==> j >= 2 * k,
{
    let d = choose|d: nat| #[trigger] (j / pow2(d) as int) == k;
    let p = pow2(d) as int;
    lemma_pow2_pos(d);
    lemma_fundamental_div_mod(j, p);
    lemma_mod_bound(j, p);
    lemma_mul_inequality(1, p, k);
    if j != k {
        if d == 0 {
            assert(pow2(0) == 1) by {
                lemma2_to64();
            }
            assert(false);
        }
        lemma_pow2_strictly_increases(0, d);
        assert(pow2(0) == 1) by {
            lemma2_to64();
        }
        lemma_mul_inequality(2, p, k);
    }
}

/// Membership in a child's subtree implies membership in the parent's.
proof fn lemma_in_sub_up(c: int, j: int)
    requires
        in_sub(c, j),
        2 <= c,
    ensures
        in_sub(c / 2, j),
{
    let d = choose|d: nat| #[trigger] (j / pow2(d) as int) == c;
    lemma_in_sub_bound(c, j);
    lemma_pow2_pos(d);
    lemma_div_denominator(j, pow2(d) as int, 2);
    assert(pow2(d + 1) == pow2(d) * 2) by {
        lemma_pow2_adds(d, 1);
        lemma2_to64();
    }
    assert(j / pow2(d + 1) as int == c / 2);
}

/// A node strictly inside a subtree lies in one of the two child subtrees.
proof fn lemma_in_sub_down(k: int, j: int)
    requires
        in_sub(k, j),
        1 <= k,
        j != k,
    ensures
        in_sub(2 * k, j) || in_sub(2 * k + 1, j),
{
    let d = choose|d: nat| #[trigger] (j / pow2(d) as int) == k;
    lemma_in_sub_bound(k, j);
    if d == 0 {
        assert(pow2(0) == 1) by {
            lemma2_to64();
        }
        assert(false);
    }
    let dm = (d - 1) as nat;
    let m = j / pow2(dm) as int;
    lemma_pow2_pos(dm);
    lemma_div_denominator(j, pow2(dm) as int, 2);
    assert(pow2(dm + 1) == pow2(dm) * 2) by {
        lemma_pow2_adds(dm, 1);
        lemma2_to64();
    }
    assert(m / 2 == k);
    lemma_fundamental_div_mod(m, 2);
    lemma_mod_bound(m, 2);
    assert(m == 2 * k || m == 2 * k + 1);
}

/// Subtree membership is transitive.
proof fn lemma_in_sub_trans(c: int, j: int, i: int)
    requires
        in_sub(c, j),
        in_sub(j, i),
        1 <= c,
        1 <= j,
    ensures
        in_sub(c, i),
{
    let a = choose|d: nat| #[trigger] (j / pow2(d) as int) == c;
    let b = choose|d: nat| #[trigger] (i / pow2(d) as int) == j;
    lemma_in_sub_bound(j, i);
    lemma_pow2_pos(a);
    lemma_pow2_pos(b);
    lemma_div_denominator(i, pow2(b) as int, pow2(a) as int);
    lemma_pow2_adds(b, a);
    assert(i / pow2(b + a) as int == c);
}

/// Two subtrees that share a node are nested one way or the other.
proof fn lemma_in_sub_nested(i: int, j: int, k: int)
    requires
        in_sub(j, i),
        in_sub(k, i),
        1 <= j,
        1 <= k,
    ensures
        in_sub(j, k) || in_sub(k, j),
{
    let a = choose|d: nat| #[trigger] (i / pow2(d) as int) == j;
    let b = choose|d: nat| #[trigger] (i / pow2(d) as int) == k;
    lemma_in_sub_bound(j, i);
    lemma_in_sub_bound(k, i);
    if a <= b {
        let c = (b - a) as nat;
        lemma_pow2_pos(a);
        lemma_pow2_pos(c);
        lemma_div_denominator(i, pow2(a) as int, pow2(c) as int);
        lemma_pow2_adds(a, c);
        assert(j / pow2(c) as int == k);
    } else {
        let c = (a - b) as nat;
        lemma_pow2_pos(b);
        lemma_pow2_pos(c);
        lemma_div_denominator(i, pow2(b) as int, pow2(c) as int);
        lemma_pow2_adds(b, c);
        assert(k / pow2(c) as int == j);
    }
}

/// The two child subtrees of a node are disjoint.
proof fn lemma_siblings_disjoint(k: int, j: int)
    requires
        1 <= k,
    ensures
        !(in_sub(2 * k, j) && in_sub(2 * k + 1, j)),
{
    if in_sub(2 * k, j) && in_sub(2 * k + 1, j) {
        lemma_in_sub_nested(j, 2 * k, 2 * k + 1);
        if in_sub(2 * k, 2 * k + 1) {
            lemma_in_sub_bound(2 * k, 2 * k + 1);
        } else {
            lemma_in_sub_bound(2 * k + 1, 2 * k);
        }
    }
}

/// A lazy-propagation segment tree over the algebra `H`.
///
/// The storage is a flat, 1-indexed complete binary tree with `size` leaves
/// (`size` the smallest power of two at least `len`): `node[k]` holds the
/// aggregate of the subtree rooted at `k`, already reflecting the pending
/// operator `lazy[k]`, which has not yet been delivered to `k`'s children.
/// The abstract value of the tree (its view) is the sequence of the `len`
/// resolved leaf values.
#[verifier::reject_recursive_types(H)]
pub struct LazySegtree<H: LazySegtreeHelper> {
    len: usize,
    size: usize,
    node: Vec<H::S>,
    lazy: Vec<H::F>,
}

impl<H: LazySegtreeHelper> LazySegtree<H> {
    /// Structural well-formedness of the storage.
    closed spec fn wf_shape(self) -> bool {
        &&& 1 <= self.size
        &&& self.len <= self.size
        &&& self.node@.len() == 2 * self.size
        &&& self.lazy@.len() == 2 * self.size
        &&& 2 * self.size <= usize::MAX
        &&& exists|h: nat| self.size == pow2(h)
    }

    /// The resolved contents of the subtree rooted at `k`: the leaf values,
    /// with every pending operator on the path from `k` downwards applied.
    /// `node[k]` is kept equal to the fold of this sequence.
    closed spec fn subtree(self, k: int) -> Seq<H::S>
        decreases 2 * self.size - k,
    {
        if k >= self.size {
            seq![self.node@[k]]
        } else if k >= 1 {
            map_f::<H>(self.lazy@[k], self.subtree(2 * k) + self.subtree(2 * k + 1))
        } else {
            seq![]
        }
    }

    /// The aggregate stored at `j` is the fold of `j`'s resolved contents.
    closed spec fn node_ok(self, j: int) -> bool {
        self.node@[j] == fold_op::<H>(self.subtree(j))
    }

    /// `node_ok` holds everywhere in the subtree rooted at `k`.
    closed spec fn good(self, k: int) -> bool {
        forall|j: int| 1 <= j < 2 * self.size && in_sub(k, j) ==> #[trigger] self.node_ok(j)
    }

    /// The padding leaves past `len` resolve to the identity aggregate, so
    /// they never disturb an aggregate that spills over the logical length.
    closed spec fn pad_ok(self) -> bool {
        forall|i: int| self.len <= i < self.size ==> #[trigger] self.subtree(1)[i] == H::spec_e()
    }

    /// The tree invariant: well-shaped storage, correct aggregates
    /// everywhere, identity padding.
    pub closed spec fn inv(self) -> bool {
        &&& self.wf_shape()
        &&& self.good(1)
        &&& self.pad_ok()
    }

    /// The node `k` spans the half-open leaf interval `[kl, kr)` (in leaf
    /// positions), `h` levels above the leaves.
    closed spec fn covers(self, k: int, kl: int, kr: int, h: nat) -> bool {
        &&& 1 <= k
        &&& self.size <= k * pow2(h)
        &&& (k + 1) * pow2(h) <= 2 * self.size
        &&& kl == k * pow2(h) - self.size
        &&& kr == kl + pow2(h)
    }
}

/// Two trees of the same shape whose leaf aggregates and pending operators
/// agree throughout the subtree of `j` have the same resolved contents there.
proof fn lemma_subtree_agree<H: LazySegtreeHelper>(
    s1: LazySegtree<H>,
    s2: LazySegtree<H>,
    j: int,
)
    requires
        s1.size == s2.size,
        1 <= j < 2 * s1.size,
        forall|i: int|
            #![trigger in_sub(j, i)]
            in_sub(j, i) ==> {
                &&& (s1.size <= i < 2 * s1.size ==> s1.node@[i] == s2.node@[i])
                &&& (1 <= i < s1.size ==> s1.lazy@[i] == s2.lazy@[i])
            },
    ensures
        s1.subtree(j) == s2.subtree(j),
    decreases 2 * s1.size - j,
{
    lemma_in_sub_self(j);
    if j >= s1.size {
    } else {
        assert forall|i: int| #![trigger in_sub(2 * j, i)] in_sub(2 * j, i) implies {
            &&& (s1.size <= i < 2 * s1.size ==> s1.node@[i] == s2.node@[i])
            &&& (1 <= i < s1.size ==> s1.lazy@[i] == s2.lazy@[i])
        } by {
            lemma_in_sub_up(2 * j, i);
        }
        assert forall|i: int| #![trigger in_sub(2 * j + 1, i)] in_sub(2 * j + 1, i) implies {
            &&& (s1.size <= i < 2 * s1.size ==> s1.node@[i] == s2.node@[i])
            &&& (1 <= i < s1.size ==> s1.lazy@[i] == s2.lazy@[i])
        } by {
            lemma_in_sub_up(2 * j + 1, i);
        }
        lemma_subtree_agree(s1, s2, 2 * j);
        lemma_subtree_agree(s1, s2, 2 * j + 1);
    }
}

/// `node_ok` throughout a subtree survives any change that leaves the
/// subtree's own entries untouched.
proof fn lemma_good_preserved<H: LazySegtreeHelper>(
    s1: LazySegtree<H>,
    s2: LazySegtree<H>,
    c: int,
)
    requires
        s1.size == s2.size,
        1 <= c < 2 * s1.size,
        s1.good(c),
        forall|i: int|
            #![trigger in_sub(c, i)]
            1 <= i < 2 * s1.size && in_sub(c, i) ==> {
                &&& s1.node@[i] == s2.node@[i]
                &&& (i < s1.size ==> s1.lazy@[i] == s2.lazy@[i])
            },
    ensures
        s2.good(c),
{
    assert forall|j: int| 1 <= j < 2 * s2.size && in_sub(c, j) implies s2.node_ok(j) by {
        assert(s1.node_ok(j));
        assert forall|i: int| #![trigger in_sub(j, i)] in_sub(j, i) implies {
            &&& (s1.size <= i < 2 * s1.size ==> s1.node@[i] == s2.node@[i])
            &&& (1 <= i < s1.size ==> s1.lazy@[i] == s2.lazy@[i])
        } by {
            lemma_in_sub_trans(c, j, i);
        }
        lemma_subtree_agree(s1, s2, j);
        lemma_in_sub_self(j);
    }
}

impl<H: LazySegtreeHelper> LazySegtree<H> {
    /// Every covering is consistent: the node is a real tree index, the leaf
    /// window lies within the leaf row, its width is the subtree's resolved
    /// length, and the node is a leaf exactly when the window has width one.
    proof fn lemma_covers_props(self, k: int, kl: int, kr: int, h: nat)
        requires
            self.wf_shape(),
            self.covers(k, kl, kr, h),
        ensures
            self.subtree(k).len() == kr - kl,
            kr - kl == pow2(h),
            0 <= kl < kr <= self.size,
            1 <= k < 2 * self.size,
            k >= self.size <==> h == 0,
            k < self.size ==> h >= 1 && self.covers(2 * k, kl, kl + pow2((h - 1) as nat), (h
                - 1) as nat) && self.covers(
                2 * k + 1,
                kl + pow2((h - 1) as nat),
                kr,
                (h - 1) as nat,
            ),
        decreases h,
    {
        lemma_pow2_pos(h);
        let p = pow2(h) as int;
        lemma_mul_is_distributive_add_other_way(p, k, 1);
        assert((k + 1) * p == k * p + p);
        lemma_mul_inequality(1, p, k + 1);
        assert(k < 2 * self.size);
        assert(kr <= self.size);
        if k >= self.size {
            if h != 0 {
                lemma_pow2_strictly_increases(0, h);
                assert(pow2(0) == 1) by {
                    lemma2_to64();
                }
                lemma_mul_inequality(2, p, k + 1);
                assert(false);
            }
            assert(pow2(0) == 1) by {
                lemma2_to64();
            }
        } else {
            if h == 0 {
                assert(pow2(0) == 1) by {
                    lemma2_to64();
                }
                assert(false);
            }
            let hm = (h - 1) as nat;
            let q = pow2(hm) as int;
            lemma_pow2_pos(hm);
            assert(p == 2 * q) by {
                lemma_pow2_adds(1, hm);
                lemma2_to64();
            }
            assert((2 * k) * q == k * p) by (nonlinear_arith)
                requires
                    p == 2 * q,
            ;
            assert((2 * k + 1) * q == k * p + q) by (nonlinear_arith)
                requires
                    p == 2 * q,
            ;
            assert((2 * k + 2) * q == (k + 1) * p) by (nonlinear_arith)
                requires
                    p == 2 * q,
            ;
            let mid = kl + q;
            assert(self.covers(2 * k, kl, mid, hm));
            assert(self.covers(2 * k + 1, mid, kr, hm));
            self.lemma_covers_props(2 * k, kl, mid, hm);
            self.lemma_covers_props(2 * k + 1, mid, kr, hm);
        }
    }

    /// Every subtree resolves to at least one element.
    proof fn lemma_subtree_nonempty(self, k: int)
        requires
            self.wf_shape(),
            1 <= k < 2 * self.size,
        ensures
            self.subtree(k).len() >= 1,
        decreases 2 * self.size - k,
    {
        if k < self.size {
            self.lemma_subtree_nonempty(2 * k);
        }
    }

    /// What a mutation confined to the subtree of `k` leaves untouched: the
    /// shape, all storage entries outside that subtree, and the resolved
    /// contents of every subtree disjoint from it.
    closed spec fn frames(pre: Self, post: Self, k: int) -> bool {
        &&& post.len == pre.len
        &&& post.size == pre.size
        &&& post.node@.len() == pre.node@.len()
        &&& post.lazy@.len() == pre.lazy@.len()
        &&& (forall|j: int|
            #![trigger post.node@[j]]
            #![trigger post.lazy@[j]]
            1 <= j < 2 * pre.size && !in_sub(k, j) ==> post.node@[j] == pre.node@[j]
                && post.lazy@[j] == pre.lazy@[j])
        &&& (forall|j: int|
            #![trigger post.subtree(j)]
            1 <= j < 2 * pre.size && !in_sub(k, j) && !in_sub(j, k) ==> post.subtree(j)
                == pre.subtree(j))
    }

    /// Entry preservation outside a subtree already implies preservation of
    /// all disjoint subtrees' contents.
    proof fn lemma_frames(pre: Self, post: Self, k: int)
        requires
            post.len == pre.len,
            post.size == pre.size,
            post.node@.len() == pre.node@.len(),
            post.lazy@.len() == pre.lazy@.len(),
            1 <= k < 2 * pre.size,
            forall|j: int|
                #![trigger post.node@[j]]
                #![trigger post.lazy@[j]]
                1 <= j < 2 * pre.size && !in_sub(k, j) ==> post.node@[j] == pre.node@[j]
                    && post.lazy@[j] == pre.lazy@[j],
        ensures
            Self::frames(pre, post, k),
    {
        assert forall|j: int|
            1 <= j < 2 * pre.size && !in_sub(k, j) && !in_sub(j, k) implies post.subtree(j)
            == pre.subtree(j) by {
            assert forall|i: int| #![trigger in_sub(j, i)] in_sub(j, i) implies {
                &&& (pre.size <= i < 2 * pre.size ==> pre.node@[i] == post.node@[i])
                &&& (1 <= i < pre.size ==> pre.lazy@[i] == post.lazy@[i])
            } by {
                lemma_in_sub_bound(j, i);
                if 1 <= i < 2 * pre.size {
                    if in_sub(k, i) {
                        lemma_in_sub_nested(i, j, k);
                        assert(false);
                    }
                    assert(post.node@[i] == pre.node@[i]);
                    assert(post.lazy@[i] == pre.lazy@[i]);
                }
            }
            lemma_subtree_agree(pre, post, j);
        }
    }

    /// Framing composes over consecutive mutations of the same subtree.
    proof fn lemma_frames_trans(a: Self, b: Self, c: Self, k: int)
        requires
            Self::frames(a, b, k),
            Self::frames(b, c, k),
        ensures
            Self::frames(a, c, k),
    {
        assert forall|j: int|
            1 <= j < 2 * a.size && !in_sub(k, j) implies c.node@[j] == a.node@[j] && c.lazy@[j]
            == a.lazy@[j] by {
            assert(b.node@[j] == a.node@[j]);
            assert(c.node@[j] == b.node@[j]);
            assert(b.lazy@[j] == a.lazy@[j]);
            assert(c.lazy@[j] == b.lazy@[j]);
        }
        assert forall|j: int|
            1 <= j < 2 * a.size && !in_sub(k, j) && !in_sub(j, k) implies c.subtree(j)
            == a.subtree(j) by {
            assert(b.subtree(j) == a.subtree(j));
            assert(c.subtree(j) == b.subtree(j));
        }
    }

    /// A node never lies inside the subtree of one of its children.
    proof fn lemma_not_in_child(k: int, c: int)
        requires
            1 <= k,
            c == 2 * k || c == 2 * k + 1,
        ensures
            !in_sub(c, k),
    {
        if in_sub(c, k) {
            lemma_in_sub_bound(c, k);
        }
    }

    /// Recompute `node[k]` from its two children; valid when both child
    /// subtrees are correct and no operator is pending at `k`.
    fn update(&mut self, k: usize)
        requires
            old(self).wf_shape(),
            1 <= k < old(self).size,
            old(self).good(2 * (k as int)),
            old(self).good(2 * (k as int) + 1),
            old(self).lazy@[k as int] == H::spec_id(),
        ensures
            final(self).wf_shape(),
            final(self).len == old(self).len,
            final(self).size == old(self).size,
            final(self).node@.len() == old(self).node@.len(),
            final(self).lazy@ == old(self).lazy@,
            forall|j: int|
                #![trigger final(self).node@[j]]
                0 <= j < 2 * final(self).size && j != k ==> final(self).node@[j] == old(
                    self,
                ).node@[j],
            forall|j: int|
                #![trigger final(self).subtree(j)]
                1 <= j < 2 * final(self).size ==> final(self).subtree(j) == old(self).subtree(j),
            final(self).good(k as int),
    {
        let ghost pre = *self;
        let ghost ki = k as int;
        let a = self.node[2 * k];
        let b = self.node[2 * k + 1];
        let v = H::op(&a, &b);
        self.node[k] = v;
        proof {
            assert forall|j: int| 1 <= j < 2 * self.size implies self.subtree(j) == pre.subtree(
                j,
            ) by {
                assert forall|i: int| #![trigger in_sub(j, i)] in_sub(j, i) implies {
                    &&& (pre.size <= i < 2 * pre.size ==> pre.node@[i] == self.node@[i])
                    &&& (1 <= i < pre.size ==> pre.lazy@[i] == self.lazy@[i])
                } by {}
                lemma_subtree_agree(pre, *self, j);
            }
            lemma_in_sub_self(2 * ki);
            lemma_in_sub_self(2 * ki + 1);
            assert(pre.node_ok(2 * ki));
            assert(pre.node_ok(2 * ki + 1));
            let s1 = pre.subtree(2 * ki);
            let s2 = pre.subtree(2 * ki + 1);
            lemma_map_f_id::<H>(s1 + s2);
            assert(pre.subtree(ki) == s1 + s2);
            lemma_fold_concat::<H>(s1, s2);
            assert(self.node_ok(ki));
            assert forall|j: int| 1 <= j < 2 * self.size && in_sub(ki, j) implies self.node_ok(
                j,
            ) by {
                if j != ki {
                    lemma_in_sub_down(ki, j);
                    if in_sub(2 * ki, j) {
                        lemma_in_sub_bound(2 * ki, j);
                    } else {
                        lemma_in_sub_bound(2 * ki + 1, j);
                    }
                    assert(pre.node_ok(j));
                    assert(self.node@[j] == pre.node@[j]);
                }
            }
        }
    }

    /// Apply the operator `f` to the whole subtree rooted at `k`: rewrite the
    /// aggregate, compose `f` into the pending operator of an internal node,
    /// and, if the new aggregate is marked failed, repair it exactly by
    /// pushing the pending operator down and recombining the children.
    fn all_apply(&mut self, k: usize, f: H::F)
        requires
            old(self).wf_shape(),
            1 <= k < 2 * old(self).size,
            old(self).good(k as int),
        ensures
            final(self).wf_shape(),
            Self::frames(*old(self), *final(self), k as int),
            final(self).subtree(k as int) == map_f::<H>(f, old(self).subtree(k as int)),
            final(self).good(k as int),
        decreases 2 * old(self).size - k, 1int,
    {
        let ghost pre = *self;
        let ghost ki = k as int;
        proof {
            lemma_in_sub_self(ki);
        }
        let x = self.node[k];
        let v = H::mapping(&f, &x);
        self.node[k] = v;
        if k >= self.size {
            proof {
                assert(pre.node_ok(ki));
                assert(self.subtree(ki) =~= map_f::<H>(f, pre.subtree(ki)));
                assert(self.node_ok(ki));
                assert forall|j: int| 1 <= j < 2 * self.size && in_sub(ki, j) implies self.node_ok(
                    j,
                ) by {
                    lemma_in_sub_bound(ki, j);
                }
                Self::lemma_frames(pre, *self, ki);
            }
        } else {
            let g = self.lazy[k];
            let c = H::composition(&f, &g);
            self.lazy[k] = c;
            let ghost m = *self;
            proof {
                Self::lemma_not_in_child(ki, 2 * ki);
                Self::lemma_not_in_child(ki, 2 * ki + 1);
                assert forall|i: int| #![trigger in_sub(2 * ki, i)] in_sub(2 * ki, i) implies {
                    &&& (pre.size <= i < 2 * pre.size ==> pre.node@[i] == m.node@[i])
                    &&& (1 <= i < pre.size ==> pre.lazy@[i] == m.lazy@[i])
                } by {
                    lemma_in_sub_bound(2 * ki, i);
                }
                assert forall|i: int|
                    #![trigger in_sub(2 * ki + 1, i)]
                    in_sub(2 * ki + 1, i) implies {
                    &&& (pre.size <= i < 2 * pre.size ==> pre.node@[i] == m.node@[i])
                    &&& (1 <= i < pre.size ==> pre.lazy@[i] == m.lazy@[i])
                } by {
                    lemma_in_sub_bound(2 * ki + 1, i);
                }
                lemma_subtree_agree(pre, m, 2 * ki);
                lemma_subtree_agree(pre, m, 2 * ki + 1);
                let s12 = pre.subtree(2 * ki) + pre.subtree(2 * ki + 1);
                assert(pre.subtree(ki) == map_f::<H>(g, s12));
                assert(m.subtree(ki) == map_f::<H>(H::spec_composition(f, g), s12));
                lemma_map_f_compose::<H>(f, g, s12);
                assert(m.subtree(ki) == map_f::<H>(f, pre.subtree(ki)));
                assert(pre.good(2 * ki)) by {
                    assert forall|j: int|
                        1 <= j < 2 * pre.size && in_sub(2 * ki, j) implies pre.node_ok(j) by {
                        lemma_in_sub_up(2 * ki, j);
                    }
                }
                assert(pre.good(2 * ki + 1)) by {
                    assert forall|j: int|
                        1 <= j < 2 * pre.size && in_sub(2 * ki + 1, j) implies pre.node_ok(j) by {
                        lemma_in_sub_up(2 * ki + 1, j);
                    }
                }
                assert forall|i: int|
                    #![trigger in_sub(2 * ki, i)]
                    1 <= i < 2 * pre.size && in_sub(2 * ki, i) implies {
                    &&& pre.node@[i] == m.node@[i]
                    &&& (i < pre.size ==> pre.lazy@[i] == m.lazy@[i])
                } by {
                    lemma_in_sub_bound(2 * ki, i);
                }
                assert forall|i: int|
                    #![trigger in_sub(2 * ki + 1, i)]
                    1 <= i < 2 * pre.size && in_sub(2 * ki + 1, i) implies {
                    &&& pre.node@[i] == m.node@[i]
                    &&& (i < pre.size ==> pre.lazy@[i] == m.lazy@[i])
                } by {
                    lemma_in_sub_bound(2 * ki + 1, i);
                }
                lemma_good_preserved(pre, m, 2 * ki);
                lemma_good_preserved(pre, m, 2 * ki + 1);
                Self::lemma_frames(pre, m, ki);
            }
            let v2 = self.node[k];
            if H::is_failed(&v2) {
                self.push(k);
                let ghost p = *self;
                self.update(k);
                proof {
                    assert(self.subtree(ki) == p.subtree(ki));
                    assert(p.subtree(ki) == m.subtree(ki));
                    assert forall|j: int|
                        #![trigger self.node@[j]]
                        #![trigger self.lazy@[j]]
                        1 <= j < 2 * p.size && !in_sub(ki, j) implies self.node@[j] == p.node@[j]
                        && self.lazy@[j] == p.lazy@[j] by {
                        assert(j != ki);
                    }
                    Self::lemma_frames(p, *self, ki);
                    Self::lemma_frames_trans(m, p, *self, ki);
                    Self::lemma_frames_trans(pre, m, *self, ki);
                }
            } else {
                proof {
                    assert(pre.node_ok(ki));
                    pre.lemma_subtree_nonempty(ki);
                    assert(!H::spec_is_failed(H::spec_mapping(f, fold_op::<H>(pre.subtree(ki)))));
                    lemma_fold_map::<H>(f, pre.subtree(ki));
                    assert(m.node_ok(ki));
                    assert forall|j: int|
                        1 <= j < 2 * m.size && in_sub(ki, j) implies m.node_ok(j) by {
                        if j != ki {
                            lemma_in_sub_down(ki, j);
                            assert(m.node_ok(j));
                        }
                    }
                }
            }
        }
    }

    /// Deliver the pending operator at `k` to both children and reset it to
    /// the identity; the resolved contents of `k`'s subtree are unchanged.
    fn push(&mut self, k: usize)
        requires
            old(self).wf_shape(),
            1 <= k < old(self).size,
            old(self).good(2 * (k as int)),
            old(self).good(2 * (k as int) + 1),
        ensures
            final(self).wf_shape(),
            Self::frames(*old(self), *final(self), k as int),
            final(self).node@[k as int] == old(self).node@[k as int],
            final(self).lazy@[k as int] == H::spec_id(),
            final(self).good(2 * (k as int)),
            final(self).good(2 * (k as int) + 1),
            final(self).subtree(2 * (k as int)) == map_f::<H>(
                old(self).lazy@[k as int],
                old(self).subtree(2 * (k as int)),
            ),
            final(self).subtree(2 * (k as int) + 1) == map_f::<H>(
                old(self).lazy@[k as int],
                old(self).subtree(2 * (k as int) + 1),
            ),
            final(self).subtree(k as int) == old(self).subtree(k as int),
        decreases 2 * old(self).size - k, 0int,
    {
        let ghost pre = *self;
        let ghost ki = k as int;
        proof {
            lemma_in_sub_self(ki);
            Self::lemma_not_in_child(ki, 2 * ki);
            Self::lemma_not_in_child(ki, 2 * ki + 1);
        }
        let g = self.lazy[k];
        self.all_apply(2 * k, g);
        let ghost m1 = *self;
        proof {
            assert forall|i: int|
                #![trigger in_sub(2 * ki + 1, i)]
                1 <= i < 2 * pre.size && in_sub(2 * ki + 1, i) implies {
                &&& pre.node@[i] == m1.node@[i]
                &&& (i < pre.size ==> pre.lazy@[i] == m1.lazy@[i])
            } by {
                lemma_siblings_disjoint(ki, i);
            }
            lemma_good_preserved(pre, m1, 2 * ki + 1);
            lemma_in_sub_self(2 * ki + 1);
            assert(!in_sub(2 * ki, 2 * ki + 1)) by {
                if in_sub(2 * ki, 2 * ki + 1) {
                    lemma_in_sub_bound(2 * ki, 2 * ki + 1);
                }
            }
            assert(!in_sub(2 * ki + 1, 2 * ki)) by {
                if in_sub(2 * ki + 1, 2 * ki) {
                    lemma_in_sub_bound(2 * ki + 1, 2 * ki);
                }
            }
            assert(m1.subtree(2 * ki + 1) == pre.subtree(2 * ki + 1));
            assert(m1.node@[ki] == pre.node@[ki] && m1.lazy@[ki] == pre.lazy@[ki]);
        }
        self.all_apply(2 * k + 1, g);
        let ghost m2 = *self;
        proof {
            assert forall|i: int|
                #![trigger in_sub(2 * ki, i)]
                1 <= i < 2 * pre.size && in_sub(2 * ki, i) implies {
                &&& m1.node@[i] == m2.node@[i]
                &&& (i < pre.size ==> m1.lazy@[i] == m2.lazy@[i])
            } by {
                lemma_siblings_disjoint(ki, i);
            }
            lemma_good_preserved(m1, m2, 2 * ki);
            assert(!in_sub(2 * ki, 2 * ki + 1)) by {
                if in_sub(2 * ki, 2 * ki + 1) {
                    lemma_in_sub_bound(2 * ki, 2 * ki + 1);
                }
            }
            assert(!in_sub(2 * ki + 1, 2 * ki)) by {
                if in_sub(2 * ki + 1, 2 * ki) {
                    lemma_in_sub_bound(2 * ki + 1, 2 * ki);
                }
            }
            assert(m2.subtree(2 * ki) == m1.subtree(2 * ki));
            assert(m2.node@[ki] == m1.node@[ki] && m2.lazy@[ki] == m1.lazy@[ki]);
        }
        self.lazy[k] = H::id();
        proof {
            let fin = *self;
            assert forall|i: int|
                #![trigger in_sub(2 * ki, i)]
                1 <= i < 2 * pre.size && in_sub(2 * ki, i) implies {
                &&& m2.node@[i] == fin.node@[i]
                &&& (i < pre.size ==> m2.lazy@[i] == fin.lazy@[i])
            } by {
                lemma_in_sub_bound(2 * ki, i);
            }
            assert forall|i: int|
                #![trigger in_sub(2 * ki + 1, i)]
                1 <= i < 2 * pre.size && in_sub(2 * ki + 1, i) implies {
                &&& m2.node@[i] == fin.node@[i]
                &&& (i < pre.size ==> m2.lazy@[i] == fin.lazy@[i])
            } by {
                lemma_in_sub_bound(2 * ki + 1, i);
            }
            lemma_good_preserved(m2, fin, 2 * ki);
            lemma_good_preserved(m2, fin, 2 * ki + 1);
            assert forall|i: int| #![trigger in_sub(2 * ki, i)] in_sub(2 * ki, i) implies {
                &&& (m2.size <= i < 2 * m2.size ==> m2.node@[i] == fin.node@[i])
                &&& (1 <= i < m2.size ==> m2.lazy@[i] == fin.lazy@[i])
            } by {
                lemma_in_sub_bound(2 * ki, i);
            }
            assert forall|i: int| #![trigger in_sub(2 * ki + 1, i)] in_sub(2 * ki + 1, i) implies {
                &&& (m2.size <= i < 2 * m2.size ==> m2.node@[i] == fin.node@[i])
                &&& (1 <= i < m2.size ==> m2.lazy@[i] == fin.lazy@[i])
            } by {
                lemma_in_sub_bound(2 * ki + 1, i);
            }
            lemma_subtree_agree(m2, fin, 2 * ki);
            lemma_subtree_agree(m2, fin, 2 * ki + 1);
            let c1 = pre.subtree(2 * ki);
            let c2 = pre.subtree(2 * ki + 1);
            assert(fin.subtree(2 * ki) == map_f::<H>(g, c1));
            assert(fin.subtree(2 * ki + 1) == map_f::<H>(g, c2));
            lemma_map_f_id::<H>(fin.subtree(2 * ki) + fin.subtree(2 * ki + 1));
            assert(fin.subtree(ki) == map_f::<H>(g, c1) + map_f::<H>(g, c2));
            lemma_map_f_concat::<H>(g, c1, c2);
            assert(pre.subtree(ki) == map_f::<H>(g, c1 + c2));
            assert(fin.subtree(ki) == pre.subtree(ki));
            assert forall|j: int|
                #![trigger fin.node@[j]]
                #![trigger fin.lazy@[j]]
                1 <= j < 2 * pre.size && !in_sub(ki, j) implies fin.node@[j] == pre.node@[j]
                && fin.lazy@[j] == pre.lazy@[j] by {
                assert(!in_sub(2 * ki, j)) by {
                    if in_sub(2 * ki, j) {
                        lemma_in_sub_up(2 * ki, j);
                    }
                }
                assert(!in_sub(2 * ki + 1, j)) by {
                    if in_sub(2 * ki + 1, j) {
                        lemma_in_sub_up(2 * ki + 1, j);
                    }
                }
                assert(j != ki);
                assert(m1.node@[j] == pre.node@[j] && m1.lazy@[j] == pre.lazy@[j]);
                assert(m2.node@[j] == m1.node@[j] && m2.lazy@[j] == m1.lazy@[j]);
            }
            Self::lemma_frames(pre, fin, ki);
        }
    }

    /// Correct aggregates throughout a subtree restrict to both children.
    proof fn lemma_good_children(self, k: int)
        requires
            self.good(k),
            1 <= k,
        ensures
            self.good(2 * k),
            self.good(2 * k + 1),
    {
        assert forall|j: int| 1 <= j < 2 * self.size && in_sub(2 * k, j) implies self.node_ok(
            j,
        ) by {
            lemma_in_sub_up(2 * k, j);
        }
        assert forall|j: int| 1 <= j < 2 * self.size && in_sub(2 * k + 1, j) implies self.node_ok(
            j,
        ) by {
            lemma_in_sub_up(2 * k + 1, j);
        }
    }

    /// A mutation framed inside a child subtree neither disturbs the other
    /// child's contents and correctness, nor the entries at the parent.
    proof fn lemma_frame_other(a: Self, b: Self, c: int, s: int, k: int)
        requires
            Self::frames(a, b, c),
            1 <= k < a.size,
            (c == 2 * k && s == 2 * k + 1) || (c == 2 * k + 1 && s == 2 * k),
        ensures
            b.subtree(s) == a.subtree(s),
            a.good(s) ==> b.good(s),
            b.node@[k] == a.node@[k],
            b.lazy@[k] == a.lazy@[k],
    {
        assert forall|i: int|
            #![trigger in_sub(s, i)]
            1 <= i < 2 * a.size && in_sub(s, i) implies {
            &&& a.node@[i] == b.node@[i]
            &&& (i < a.size ==> a.lazy@[i] == b.lazy@[i])
        } by {
            lemma_siblings_disjoint(k, i);
        }
        if a.good(s) {
            lemma_good_preserved(a, b, s);
        }
        assert(!in_sub(c, s)) by {
            if in_sub(c, s) {
                lemma_in_sub_bound(c, s);
            }
        }
        assert(!in_sub(s, c)) by {
            if in_sub(s, c) {
                lemma_in_sub_bound(s, c);
            }
        }
        assert(b.subtree(s) == a.subtree(s));
        Self::lemma_not_in_child(k, c);
        assert(b.node@[k] == a.node@[k] && b.lazy@[k] == a.lazy@[k]);
    }

    /// A frame on a child subtree is also a frame on the parent's subtree.
    proof fn lemma_frames_widen(a: Self, b: Self, c: int, k: int)
        requires
            Self::frames(a, b, c),
            c == 2 * k || c == 2 * k + 1,
            1 <= k < a.size,
        ensures
            Self::frames(a, b, k),
    {
        assert forall|j: int|
            #![trigger b.node@[j]]
            #![trigger b.lazy@[j]]
            1 <= j < 2 * a.size && !in_sub(k, j) implies b.node@[j] == a.node@[j] && b.lazy@[j]
            == a.lazy@[j] by {
            assert(!in_sub(c, j)) by {
                if in_sub(c, j) {
                    lemma_in_sub_up(c, j);
                }
            }
        }
        Self::lemma_frames(a, b, k);
    }

    /// Apply `f` to the positions of the absolute window `[l, r)` that fall
    /// inside the node `k` spanning `[kl, kr)`; the windows are guaranteed to
    /// overlap.
    fn apply_rec(&mut self, k: usize, kl: usize, kr: usize, l: usize, r: usize, f: H::F, h: Ghost<
        nat,
    >)
        requires
            old(self).wf_shape(),
            old(self).covers(k as int, kl as int, kr as int, h@),
            old(self).good(k as int),
            l < r,
            l < kr,
            kl < r,
        ensures
            final(self).wf_shape(),
            Self::frames(*old(self), *final(self), k as int),
            final(self).good(k as int),
            final(self).subtree(k as int) == map_range::<H>(
                f,
                old(self).subtree(k as int),
                l - kl,
                r - kl,
            ),
        decreases kr - kl,
    {
        let ghost pre = *self;
        let ghost ki = k as int;
        proof {
            pre.lemma_covers_props(ki, kl as int, kr as int, h@);
        }
        if l <= kl && kr <= r {
            self.all_apply(k, f);
            proof {
                assert(final(self).subtree(ki) =~= map_range::<H>(
                    f,
                    pre.subtree(ki),
                    l - kl,
                    r - kl,
                ));
            }
            return ;
        }
        proof {
            if k as int >= pre.size {
                assert(kr - kl == 1);
                assert(false);
            }
        }
        proof {
            pre.lemma_good_children(ki);
        }
        self.push(k);
        let ghost m0 = *self;
        let ghost hm: nat = (h@ - 1) as nat;
        let mid = kl + (kr - kl) / 2;
        proof {
            assert(mid - kl == pow2(hm)) by {
                lemma_pow2_adds(1, hm);
                lemma2_to64();
            }
            assert(pre.covers(2 * ki, kl as int, mid as int, hm));
            assert(m0.covers(2 * ki, kl as int, mid as int, hm));
            assert(m0.covers(2 * ki + 1, mid as int, kr as int, hm));
            m0.lemma_covers_props(2 * ki, kl as int, mid as int, hm);
            m0.lemma_covers_props(2 * ki + 1, mid as int, kr as int, hm);
        }
        let ghost s1 = m0.subtree(2 * ki);
        let ghost s2 = m0.subtree(2 * ki + 1);
        proof {
            lemma_map_f_id::<H>(s1 + s2);
            assert(m0.subtree(ki) == s1 + s2);
            assert(pre.subtree(ki) == s1 + s2);
        }
        if l < mid {
            self.apply_rec(2 * k, kl, mid, l, r, f, Ghost(hm));
        }
        let ghost m1 = *self;
        proof {
            if l < mid {
                Self::lemma_frame_other(m0, m1, 2 * ki, 2 * ki + 1, ki);
                Self::lemma_frames_widen(m0, m1, 2 * ki, ki);
            } else {
                assert(m1 == m0);
                Self::lemma_frames(m0, m1, ki);
            }
            assert(m1.subtree(2 * ki) =~= map_range::<H>(f, s1, l - kl, r - kl));
            assert(m1.good(2 * ki)) by {
                if l < mid {
                } else {
                    assert forall|j: int|
                        1 <= j < 2 * m1.size && in_sub(2 * ki, j) implies m1.node_ok(j) by {
                        lemma_in_sub_up(2 * ki, j);
                    }
                }
            }
        }
        if mid < r {
            self.apply_rec(2 * k + 1, mid, kr, l, r, f, Ghost(hm));
        }
        let ghost m2 = *self;
        proof {
            if mid < r {
                Self::lemma_frame_other(m1, m2, 2 * ki + 1, 2 * ki, ki);
                Self::lemma_frames_widen(m1, m2, 2 * ki + 1, ki);
            } else {
                assert(m2 == m1);
                Self::lemma_frames(m1, m2, ki);
            }
            assert(m2.subtree(2 * ki + 1) =~= map_range::<H>(f, s2, l - mid, r - mid));
            assert(m2.good(2 * ki + 1)) by {
                if mid < r {
                } else {
                    assert forall|j: int|
                        1 <= j < 2 * m2.size && in_sub(2 * ki + 1, j) implies m2.node_ok(j) by {
                        lemma_in_sub_up(2 * ki + 1, j);
                    }
                }
            }
            assert(m2.good(2 * ki));
            assert(m2.lazy@[ki] == H::spec_id());
        }
        self.update(k);
        proof {
            let fin = *self;
            assert(fin.subtree(2 * ki) == m2.subtree(2 * ki));
            assert(fin.subtree(2 * ki + 1) == m2.subtree(2 * ki + 1));
            lemma_map_f_id::<H>(fin.subtree(2 * ki) + fin.subtree(2 * ki + 1));
            assert(fin.subtree(ki) == m2.subtree(2 * ki) + m2.subtree(2 * ki + 1));
            assert(fin.subtree(ki) =~= map_range::<H>(f, pre.subtree(ki), l - kl, r - kl));
            assert forall|j: int|
                #![trigger fin.node@[j]]
                #![trigger fin.lazy@[j]]
                1 <= j < 2 * m2.size && !in_sub(ki, j) implies fin.node@[j] == m2.node@[j]
                && fin.lazy@[j] == m2.lazy@[j] by {
                lemma_in_sub_self(ki);
            }
            Self::lemma_frames(m2, fin, ki);
            Self::lemma_frames_trans(m1, m2, fin, ki);
            Self::lemma_frames_trans(m0, m1, fin, ki);
            Self::lemma_frames_trans(pre, m0, fin, ki);
        }
    }

    /// Overwrite the leaf at absolute position `p` (inside this node's
    /// window) with `x`, re-establishing all aggregates on the way back up.
    fn set_rec(&mut self, k: usize, kl: usize, kr: usize, p: usize, x: H::S, h: Ghost<nat>)
        requires
            old(self).wf_shape(),
            old(self).covers(k as int, kl as int, kr as int, h@),
            old(self).good(k as int),
            kl <= p < kr,
        ensures
            final(self).wf_shape(),
            Self::frames(*old(self), *final(self), k as int),
            final(self).good(k as int),
            final(self).subtree(k as int) == old(self).subtree(k as int).update(p - kl, x),
        decreases kr - kl,
    {
        let ghost pre = *self;
        let ghost ki = k as int;
        proof {
            pre.lemma_covers_props(ki, kl as int, kr as int, h@);
        }
        if kr - kl == 1 {
            proof {
                if ki < pre.size {
                    lemma_pow2_pos((h@ - 1) as nat);
                    assert(pow2(h@) == 2 * pow2((h@ - 1) as nat)) by {
                        lemma_pow2_adds(1, (h@ - 1) as nat);
                        lemma2_to64();
                    }
                    assert(false);
                }
            }
            self.node[k] = x;
            proof {
                let fin = *self;
                assert(fin.subtree(ki) =~= pre.subtree(ki).update(p - kl, x));
                assert forall|j: int|
                    1 <= j < 2 * fin.size && in_sub(ki, j) implies fin.node_ok(j) by {
                    lemma_in_sub_bound(ki, j);
                }
                assert forall|j: int|
                    #![trigger fin.node@[j]]
                    #![trigger fin.lazy@[j]]
                    1 <= j < 2 * pre.size && !in_sub(ki, j) implies fin.node@[j] == pre.node@[j]
                    && fin.lazy@[j] == pre.lazy@[j] by {
                    lemma_in_sub_self(ki);
                }
                Self::lemma_frames(pre, fin, ki);
            }
            return ;
        }
        proof {
            pre.lemma_good_children(ki);
        }
        self.push(k);
        let ghost m0 = *self;
        let ghost hm: nat = (h@ - 1) as nat;
        let mid = kl + (kr - kl) / 2;
        proof {
            assert(mid - kl == pow2(hm)) by {
                lemma_pow2_adds(1, hm);
                lemma2_to64();
            }
            assert(m0.covers(2 * ki, kl as int, mid as int, hm));
            assert(m0.covers(2 * ki + 1, mid as int, kr as int, hm));
        }
        let ghost s1 = m0.subtree(2 * ki);
        let ghost s2 = m0.subtree(2 * ki + 1);
        proof {
            lemma_map_f_id::<H>(s1 + s2);
            assert(m0.subtree(ki) == s1 + s2);
            assert(pre.subtree(ki) == s1 + s2);
            m0.lemma_covers_props(2 * ki, kl as int, mid as int, hm);
        }
        if p < mid {
            self.set_rec(2 * k, kl, mid, p, x, Ghost(hm));
        } else {
            self.set_rec(2 * k + 1, mid, kr, p, x, Ghost(hm));
        }
        let ghost m1 = *self;
        proof {
            if p < mid {
                Self::lemma_frame_other(m0, m1, 2 * ki, 2 * ki + 1, ki);
                Self::lemma_frames_widen(m0, m1, 2 * ki, ki);
                assert(m1.good(2 * ki + 1));
            } else {
                Self::lemma_frame_other(m0, m1, 2 * ki + 1, 2 * ki, ki);
                Self::lemma_frames_widen(m0, m1, 2 * ki + 1, ki);
                assert(m1.good(2 * ki));
            }
            assert(m1.lazy@[ki] == H::spec_id());
        }
        self.update(k);
        proof {
            let fin = *self;
            assert(fin.subtree(2 * ki) == m1.subtree(2 * ki));
            assert(fin.subtree(2 * ki + 1) == m1.subtree(2 * ki + 1));
            lemma_map_f_id::<H>(fin.subtree(2 * ki) + fin.subtree(2 * ki + 1));
            assert(fin.subtree(ki) == m1.subtree(2 * ki) + m1.subtree(2 * ki + 1));
            assert(fin.subtree(ki) =~= pre.subtree(ki).update(p - kl, x));
            assert forall|j: int|
                #![trigger fin.node@[j]]
                #![trigger fin.lazy@[j]]
                1 <= j < 2 * m1.size && !in_sub(ki, j) implies fin.node@[j] == m1.node@[j]
                && fin.lazy@[j] == m1.lazy@[j] by {
                lemma_in_sub_self(ki);
            }
            Self::lemma_frames(m1, fin, ki);
            Self::lemma_frames_trans(m0, m1, fin, ki);
            Self::lemma_frames_trans(pre, m0, fin, ki);
        }
    }

    /// Aggregate the positions of the absolute window `[l, r)` that fall
    /// inside this node's window `[kl, kr)`, pushing pending operators so
    /// the aggregates that are read are accurate.  The tree's resolved
    /// contents are unchanged.
    #[verifier::rlimit(100)]
    #[verifier::spinoff_prover]
    fn prod_rec(&mut self, k: usize, kl: usize, kr: usize, l: usize, r: usize, h: Ghost<nat>) -> (
        res: H::S)
        requires
            old(self).wf_shape(),
            old(self).covers(k as int, kl as int, kr as int, h@),
            old(self).good(k as int),
            l < r,
            l < kr,
            kl < r,
        ensures
            final(self).wf_shape(),
            Self::frames(*old(self), *final(self), k as int),
            final(self).good(k as int),
            final(self).subtree(k as int) == old(self).subtree(k as int),
            res == fold_op::<H>(
                old(self).subtree(k as int).subrange(
                    if l <= kl {
                        0int
                    } else {
                        l - kl
                    },
                    if r < kr {
                        r - kl
                    } else {
                        kr - kl
                    },
                ),
            ),
        decreases kr - kl,
    {
        let ghost pre = *self;
        let ghost ki = k as int;
        proof {
            pre.lemma_covers_props(ki, kl as int, kr as int, h@);
            lemma_in_sub_self(ki);
        }
        if l <= kl && kr <= r {
            let res = self.node[k];
            proof {
                assert(pre.node_ok(ki));
                assert(pre.subtree(ki).subrange(0, kr - kl) =~= pre.subtree(ki));
                Self::lemma_frames(pre, pre, ki);
            }
            return res;
        }
        proof {
            if ki >= pre.size {
                assert(kr - kl == 1);
                assert(false);
            }
        }
        proof {
            pre.lemma_good_children(ki);
        }
        self.push(k);
        let ghost m0 = *self;
        let ghost hm: nat = (h@ - 1) as nat;
        let mid = kl + (kr - kl) / 2;
        proof {
            assert(mid - kl == pow2(hm)) by {
                lemma_pow2_adds(1, hm);
                lemma2_to64();
            }
            assert(m0.covers(2 * ki, kl as int, mid as int, hm));
            assert(m0.covers(2 * ki + 1, mid as int, kr as int, hm));
            m0.lemma_covers_props(2 * ki, kl as int, mid as int, hm);
            m0.lemma_covers_props(2 * ki + 1, mid as int, kr as int, hm);
        }
        let ghost s1 = m0.subtree(2 * ki);
        let ghost s2 = m0.subtree(2 * ki + 1);
        proof {
            lemma_map_f_id::<H>(s1 + s2);
            assert(m0.subtree(ki) == s1 + s2);
            assert(pre.subtree(ki) == s1 + s2);
        }
        let a: H::S;
        if l < mid {
            a = self.prod_rec(2 * k, kl, mid, l, r, Ghost(hm));
        } else {
            a = H::e();
        }
        let ghost m1 = *self;
        proof {
            if l < mid {
                Self::lemma_frame_other(m0, m1, 2 * ki, 2 * ki + 1, ki);
                Self::lemma_frames_widen(m0, m1, 2 * ki, ki);
                assert(m1.good(2 * ki + 1));
                assert(m1.subtree(2 * ki) == s1);
            } else {
                Self::lemma_frames(m0, m1, ki);
                assert forall|j: int|
                    1 <= j < 2 * m1.size && in_sub(2 * ki, j) implies m1.node_ok(j) by {
                    lemma_in_sub_up(2 * ki, j);
                }
                assert forall|j: int|
                    1 <= j < 2 * m1.size && in_sub(2 * ki + 1, j) implies m1.node_ok(j) by {
                    lemma_in_sub_up(2 * ki + 1, j);
                }
            }
        }
        let b: H::S;
        if mid < r {
            b = self.prod_rec(2 * k + 1, mid, kr, l, r, Ghost(hm));
        } else {
            b = H::e();
        }
        let ghost m2 = *self;
        proof {
            if mid < r {
                Self::lemma_frame_other(m1, m2, 2 * ki + 1, 2 * ki, ki);
                Self::lemma_frames_widen(m1, m2, 2 * ki + 1, ki);
                assert(m2.good(2 * ki));
                assert(m2.subtree(2 * ki + 1) == m1.subtree(2 * ki + 1));
            } else {
                Self::lemma_frames(m1, m2, ki);
            }
            assert(m2.subtree(2 * ki) == s1);
            assert(m2.subtree(2 * ki + 1) == s2);
            lemma_map_f_id::<H>(s1 + s2);
            assert(m2.subtree(ki) == s1 + s2);
            assert forall|j: int| 1 <= j < 2 * m2.size && in_sub(ki, j) implies m2.node_ok(j) by {
                if j != ki {
                    lemma_in_sub_down(ki, j);
                } else {
                    assert(m2.node@[ki] == pre.node@[ki]) by {
                        Self::lemma_not_in_child(ki, 2 * ki);
                        Self::lemma_not_in_child(ki, 2 * ki + 1);
                    }
                    assert(pre.node_ok(ki));
                }
            }
            Self::lemma_frames_trans(m0, m1, m2, ki);
            Self::lemma_frames_trans(pre, m0, m2, ki);
            let wl: int = if l <= kl { 0int } else { l - kl };
            let wh: int = if r < kr { r - kl } else { kr - kl };
            let la: Seq<H::S> = if l < mid {
                s1.subrange(
                    if l <= kl {
                        0int
                    } else {
                        l - kl
                    },
                    if r < mid {
                        r - kl
                    } else {
                        mid - kl
                    },
                )
            } else {
                Seq::empty()
            };
            let lb: Seq<H::S> = if mid < r {
                s2.subrange(
                    if l <= mid {
                        0int
                    } else {
                        l - mid
                    },
                    if r < kr {
                        r - mid
                    } else {
                        kr - mid
                    },
                )
            } else {
                Seq::empty()
            };
            assert(a == fold_op::<H>(la));
            assert(b == fold_op::<H>(lb));
            assert((s1 + s2).subrange(wl, wh) =~= la + lb);
            lemma_fold_concat::<H>(la, lb);
        }
        let res = H::op(&a, &b);
        res
    }

    /// With every pending operator equal to the identity, each subtree
    /// resolves exactly to its slice of the stored leaf row.
    proof fn lemma_plain_subtree(self, k: int, kl: int, kr: int, h: nat)
        requires
            self.wf_shape(),
            self.covers(k, kl, kr, h),
            forall|i: int| 1 <= i < self.size ==> self.lazy@[i] == H::spec_id(),
        ensures
            self.subtree(k) == self.node@.subrange(self.size + kl, self.size + kr),
        decreases h,
    {
        self.lemma_covers_props(k, kl, kr, h);
        if k >= self.size {
            assert(pow2(0) == 1) by {
                lemma2_to64();
            }
            assert(k == self.size + kl);
            assert(self.subtree(k) =~= self.node@.subrange(self.size + kl, self.size + kr));
        } else {
            let hm = (h - 1) as nat;
            let mid = kl + pow2(hm) as int;
            self.lemma_plain_subtree(2 * k, kl, mid, hm);
            self.lemma_plain_subtree(2 * k + 1, mid, kr, hm);
            lemma_map_f_id::<H>(self.subtree(2 * k) + self.subtree(2 * k + 1));
            assert(self.subtree(k) =~= self.node@.subrange(self.size + kl, self.size + kr));
        }
    }

    /// The root covers the whole leaf row.
    proof fn lemma_root_covers(self) -> (h: nat)
        requires
            self.wf_shape(),
        ensures
            self.covers(1, 0, self.size as int, h),
            self.subtree(1).len() == self.size,
    {
        let h = choose|h: nat| self.size == pow2(h);
        assert(1 * pow2(h) == pow2(h));
        assert(2 * pow2(h) == 2 * self.size);
        assert(self.covers(1, 0, self.size as int, h));
        self.lemma_covers_props(1, 0, self.size as int, h);
        h
    }

    /// Build a tree holding exactly the elements of `v`; leaves past `len`
    /// are padded with the identity aggregate and every pending operator
    /// starts as the identity.
    pub fn from_vec(v: Vec<H::S>) -> (t: Self)
        requires
            4 * v@.len() <= usize::MAX,
        ensures
            t.inv(),
            t@ == v@,
    {
        let len = v.len();
        let mut size: usize = 1;
        proof {
            lemma2_to64();
            assert(size == pow2(0));
        }
        while size < len
            invariant
                1 <= size,
                size == 1 || size < 2 * len,
                4 * v@.len() <= usize::MAX,
                len == v@.len(),
                exists|hh: nat| size == pow2(hh),
            decreases 2 * len - size,
        {
            proof {
                let hh = choose|hh: nat| size == pow2(hh);
                lemma_pow2_adds(hh, 1);
                lemma2_to64();
                assert(2 * size == pow2(hh + 1));
            }
            size = 2 * size;
        }
        let total = 2 * size;
        let mut node: Vec<H::S> = Vec::new();
        let mut i: usize = 0;
        while i < size
            invariant
                node@.len() == i,
                i <= size,
            decreases size - i,
        {
            node.push(H::e());
            i = i + 1;
        }
        let mut j: usize = 0;
        while j < len
            invariant
                node@.len() == size + j,
                j <= len,
                len <= size,
                len == v@.len(),
                forall|q: int| 0 <= q < j ==> node@[size + q] == v@[q],
            decreases len - j,
        {
            node.push(v[j]);
            j = j + 1;
        }
        while node.len() < total
            invariant
                size + len <= node@.len() <= total,
                total == 2 * size,
                len <= size,
                len == v@.len(),
                forall|q: int| 0 <= q < len ==> node@[size + q] == v@[q],
                forall|q: int| size + len <= q < node@.len() ==> node@[q] == H::spec_e(),
            decreases total - node@.len(),
        {
            node.push(H::e());
        }
        let mut lazy: Vec<H::F> = Vec::new();
        let mut p: usize = 0;
        while p < total
            invariant
                lazy@.len() == p,
                p <= total,
                forall|q: int| 0 <= q < p ==> lazy@[q] == H::spec_id(),
            decreases total - p,
        {
            lazy.push(H::id());
            p = p + 1;
        }
        let mut t = Self { len, size, node, lazy };
        proof {
            assert(t.wf_shape());
            assert forall|j2: int| t.size <= j2 < 2 * t.size implies t.node_ok(j2) by {
                assert(t.subtree(j2) =~= seq![t.node@[j2]]);
            }
        }
        let mut k = size;
        while k > 1
            invariant
                t.wf_shape(),
                t.size == size,
                t.len == len,
                len == v@.len(),
                1 <= k <= size,
                forall|q: int| 0 <= q < 2 * size ==> t.lazy@[q] == H::spec_id(),
                forall|q: int| 0 <= q < len ==> t.node@[size + q] == v@[q],
                forall|q: int| size + len <= q < 2 * size ==> t.node@[q] == H::spec_e(),
                forall|j2: int| k <= j2 < 2 * size ==> t.node_ok(j2),
            decreases k,
        {
            k = k - 1;
            let ghost tp = t;
            let ghost ki = k as int;
            proof {
                assert forall|j2: int|
                    1 <= j2 < 2 * tp.size && in_sub(2 * ki, j2) implies tp.node_ok(j2) by {
                    lemma_in_sub_bound(2 * ki, j2);
                }
                assert forall|j2: int|
                    1 <= j2 < 2 * tp.size && in_sub(2 * ki + 1, j2) implies tp.node_ok(j2) by {
                    lemma_in_sub_bound(2 * ki + 1, j2);
                }
            }
            t.update(k);
            proof {
                assert forall|j2: int| ki <= j2 < 2 * size implies t.node_ok(j2) by {
                    if j2 == ki {
                        lemma_in_sub_self(ki);
                        assert(t.node_ok(j2));
                    } else {
                        assert(tp.node_ok(j2));
                        assert(t.node@[j2] == tp.node@[j2]);
                        assert(t.subtree(j2) == tp.subtree(j2));
                    }
                }
            }
        }
        proof {
            let h = t.lemma_root_covers();
            t.lemma_plain_subtree(1, 0, t.size as int, h);
            assert(t.good(1));
            assert forall|q: int| t.len <= q < t.size implies #[trigger] t.subtree(1)[q]
                == H::spec_e() by {
                assert(t.subtree(1)[q] == t.node@[t.size + q]);
            }
            assert(t@ =~= v@);
        }
        t
    }

    /// Build a tree of `n` identity aggregates.
    pub fn new(n: usize) -> (t: Self)
        requires
            4 * (n as int) <= usize::MAX,
        ensures
            t.inv(),
            t@ == Seq::new(n as nat, |i: int| H::spec_e()),
    {
        let mut v: Vec<H::S> = Vec::new();
        let mut i: usize = 0;
        while i < n
            invariant
                v@.len() == i,
                i <= n,
                forall|q: int| 0 <= q < i ==> v@[q] == H::spec_e(),
            decreases n - i,
        {
            v.push(H::e());
            i = i + 1;
        }
        let t = Self::from_vec(v);
        proof {
            assert(t@ =~= Seq::new(n as nat, |i2: int| H::spec_e()));
        }
        t
    }

    /// The number of elements.
    pub fn len(&self) -> (r: usize)
        requires
            self.inv(),
        ensures
            r == self@.len(),
    {
        proof {
            self.lemma_root_covers();
        }
        self.len
    }

    /// Apply the operator `f` to every element of the half-open range
    /// `[l, r)`; an empty range changes nothing.
    pub fn apply_range(&mut self, l: usize, r: usize, f: H::F)
        requires
            old(self).inv(),
            l <= r,
            r <= old(self)@.len(),
        ensures
            final(self).inv(),
            final(self)@ == map_range::<H>(f, old(self)@, l as int, r as int),
    {
        let ghost pre = *self;
        let ghost h: nat = choose|hh: nat| pre.size == pow2(hh);
        proof {
            assert(pre.size == pow2(h));
            assert(1 * pow2(h) == pow2(h));
            assert(2 * pow2(h) == 2 * pre.size);
            assert(pre.covers(1, 0, pre.size as int, h));
            pre.lemma_covers_props(1, 0, pre.size as int, h);
        }
        if l == r {
            proof {
                assert(self@ =~= map_range::<H>(f, pre@, l as int, r as int));
            }
            return ;
        }
        let sz = self.size;
        self.apply_rec(1, 0, sz, l, r, f, Ghost(h));
        proof {
            let fin = *self;
            assert(fin.subtree(1) == map_range::<H>(f, pre.subtree(1), l as int, r as int));
            assert(fin@ =~= map_range::<H>(f, pre@, l as int, r as int));
            assert forall|q: int| fin.len <= q < fin.size implies #[trigger] fin.subtree(1)[q]
                == H::spec_e() by {
                assert(fin.subtree(1)[q] == pre.subtree(1)[q]);
                assert(pre.subtree(1)[q] == H::spec_e());
            }
        }
    }

    /// Overwrite the element at position `p` with `x`.
    pub fn set(&mut self, p: usize, x: H::S)
        requires
            old(self).inv(),
            p < old(self)@.len(),
        ensures
            final(self).inv(),
            final(self)@ == old(self)@.update(p as int, x),
    {
        let ghost pre = *self;
        let ghost h: nat = choose|hh: nat| pre.size == pow2(hh);
        proof {
            assert(pre.size == pow2(h));
            assert(1 * pow2(h) == pow2(h));
            assert(2 * pow2(h) == 2 * pre.size);
            assert(pre.covers(1, 0, pre.size as int, h));
            pre.lemma_covers_props(1, 0, pre.size as int, h);
        }
        let sz = self.size;
        self.set_rec(1, 0, sz, p, x, Ghost(h));
        proof {
            let fin = *self;
            assert(fin.subtree(1) == pre.subtree(1).update(p as int, x));
            assert(fin@ =~= pre@.update(p as int, x));
            assert forall|q: int| fin.len <= q < fin.size implies #[trigger] fin.subtree(1)[q]
                == H::spec_e() by {
                assert(fin.subtree(1)[q] == pre.subtree(1)[q]);
                assert(pre.subtree(1)[q] == H::spec_e());
            }
        }
    }

    /// The aggregate of the half-open range `[l, r)`, folded left to right;
    /// the empty range yields the identity.  Pending operators are pushed as
    /// a side effect, but the elements are unchanged.
    pub fn prod(&mut self, l: usize, r: usize) -> (res: H::S)
        requires
            old(self).inv(),
            l <= r,
            r <= old(self)@.len(),
        ensures
            final(self).inv(),
            final(self)@ == old(self)@,
            res == fold_op::<H>(old(self)@.subrange(l as int, r as int)),
    {
        let ghost pre = *self;
        let ghost h: nat = choose|hh: nat| pre.size == pow2(hh);
        proof {
            assert(pre.size == pow2(h));
            assert(1 * pow2(h) == pow2(h));
            assert(2 * pow2(h) == 2 * pre.size);
            assert(pre.covers(1, 0, pre.size as int, h));
            pre.lemma_covers_props(1, 0, pre.size as int, h);
        }
        if l == r {
            let res = H::e();
            proof {
                assert(pre@.subrange(l as int, r as int) =~= Seq::<H::S>::empty());
            }
            return res;
        }
        let sz = self.size;
        let res = self.prod_rec(1, 0, sz, l, r, Ghost(h));
        proof {
            let fin = *self;
            assert(fin.subtree(1) == pre.subtree(1));
            assert(fin@ =~= pre@);
            assert forall|q: int| fin.len <= q < fin.size implies #[trigger] fin.subtree(1)[q]
                == H::spec_e() by {
                assert(fin.subtree(1)[q] == pre.subtree(1)[q]);
                assert(pre.subtree(1)[q] == H::spec_e());
            }
            assert(pre.subtree(1).subrange(l as int, r as int) =~= pre@.subrange(
                l as int,
                r as int,
            ));
        }
        res
    }

    /// The element at position `p`.  Pending operators along the path are
    /// pushed, but the elements are unchanged.
    pub fn get(&mut self, p: usize) -> (res: H::S)
        requires
            old(self).inv(),
            p < old(self)@.len(),
        ensures
            final(self).inv(),
            final(self)@ == old(self)@,
            res == old(self)@[p as int],
    {
        let ghost pre = *self;
        proof {
            pre.lemma_root_covers();
        }
        let res = self.prod(p, p + 1);
        proof {
            assert(pre@.subrange(p as int, p as int + 1) =~= seq![pre@[p as int]]);
        }
        res
    }

    /// Apply the operator `f` to the single element at position `p`.
    pub fn apply(&mut self, p: usize, f: H::F)
        requires
            old(self).inv(),
            p < old(self)@.len(),
        ensures
            final(self).inv(),
            final(self)@ == old(self)@.update(
                p as int,
                H::spec_mapping(f, old(self)@[p as int]),
            ),
    {
        let ghost pre = *self;
        proof {
            pre.lemma_root_covers();
        }
        self.apply_range(p, p + 1, f);
        proof {
            assert(self@ =~= pre@.update(p as int, H::spec_mapping(f, pre@[p as int])));
        }
    }

    /// Walk the window of `k` left to right starting from absolute position
    /// `l`, greedily extending the accumulated prefix aggregate `sm` (the
    /// fold of the ghost prefix `pfx`) as long as `pred` accepts it.
    /// Returns the first position where `pred` rejected, or the window's
    /// right end, together with the accumulated aggregate up to there.
    #[verifier::rlimit(100)]
    #[verifier::spinoff_prover]
    fn max_right_rec<P: Fn(&H::S) -> bool>(
        &mut self,
        k: usize,
        kl: usize,
        kr: usize,
        l: usize,
        sm: H::S,
        pred: &P,
        h: Ghost<nat>,
        pfx: Ghost<Seq<H::S>>,
    ) -> (res: (usize, H::S))
        requires
            old(self).wf_shape(),
            old(self).covers(k as int, kl as int, kr as int, h@),
            old(self).good(k as int),
            l < kr,
            forall|s: H::S| #[trigger] call_requires(*pred, (&s,)),
            sm == fold_op::<H>(pfx@),
            pfx@.len() > 0 ==> call_ensures(*pred, (&sm,), true),
        ensures
            final(self).wf_shape(),
            Self::frames(*old(self), *final(self), k as int),
            final(self).good(k as int),
            final(self).subtree(k as int) == old(self).subtree(k as int),
            ({
                let s = old(self).subtree(k as int);
                let lo: int = if l <= kl {
                    0int
                } else {
                    l - kl
                };
                let m = res.0 as int;
                &&& kl + lo <= m <= kr
                &&& res.1 == fold_op::<H>(pfx@ + s.subrange(lo, m - kl))
                &&& ((pfx@.len() > 0 || m - kl > lo) ==> call_ensures(*pred, (&res.1,), true))
                &&& (m < kr ==> call_ensures(*pred, (&H::spec_op(res.1, s[m - kl]),), false))
            }),
        decreases kr - kl,
    {
        let ghost pre = *self;
        let ghost ki = k as int;
        proof {
            pre.lemma_covers_props(ki, kl as int, kr as int, h@);
            lemma_in_sub_self(ki);
        }
        if l <= kl {
            let nodev = self.node[k];
            let t = H::op(&sm, &nodev);
            if (*pred)(&t) {
                proof {
                    assert(pre.node_ok(ki));
                    lemma_fold_concat::<H>(pfx@, pre.subtree(ki));
                    assert(pre.subtree(ki).subrange(0, kr - kl) =~= pre.subtree(ki));
                    Self::lemma_frames(pre, pre, ki);
                }
                return (kr, t);
            }
            if kr - kl == 1 {
                proof {
                    assert(pre.node_ok(ki));
                    assert(pre.subtree(ki)[0] == pre.node@[ki]);
                    assert(pfx@ + pre.subtree(ki).subrange(0, 0) =~= pfx@);
                    Self::lemma_frames(pre, pre, ki);
                }
                return (kl, sm);
            }
        }
        proof {
            if ki >= pre.size {
                assert(kr - kl == 1);
                assert(false);
            }
            pre.lemma_good_children(ki);
        }
        self.push(k);
        let ghost m0 = *self;
        let ghost hm: nat = (h@ - 1) as nat;
        let mid = kl + (kr - kl) / 2;
        proof {
            assert(mid - kl == pow2(hm)) by {
                lemma_pow2_adds(1, hm);
                lemma2_to64();
            }
            assert(m0.covers(2 * ki, kl as int, mid as int, hm));
            assert(m0.covers(2 * ki + 1, mid as int, kr as int, hm));
            m0.lemma_covers_props(2 * ki, kl as int, mid as int, hm);
            m0.lemma_covers_props(2 * ki + 1, mid as int, kr as int, hm);
        }
        let ghost s1 = m0.subtree(2 * ki);
        let ghost s2 = m0.subtree(2 * ki + 1);
        proof {
            lemma_map_f_id::<H>(s1 + s2);
            assert(m0.subtree(ki) == s1 + s2);
            assert(pre.subtree(ki) == s1 + s2);
        }
        let ghost lo: int = if l <= kl {
            0int
        } else {
            l - kl
        };
        let mut acc = sm;
        let ghost mut pfx2 = pfx@;
        if l < mid {
            let r1 = self.max_right_rec(2 * k, kl, mid, l, acc, pred, Ghost(hm), Ghost(pfx2));
            let ghost m1 = *self;
            proof {
                Self::lemma_frame_other(m0, m1, 2 * ki, 2 * ki + 1, ki);
                Self::lemma_frames_widen(m0, m1, 2 * ki, ki);
            }
            if r1.0 < mid {
                proof {
                    let m1v = *self;
                    assert(m1v.subtree(2 * ki) == s1);
                    assert(m1v.subtree(2 * ki + 1) == s2);
                    lemma_map_f_id::<H>(s1 + s2);
                    assert(m1v.subtree(ki) == s1 + s2);
                    assert(m1v.good(2 * ki + 1));
                    assert forall|j: int|
                        1 <= j < 2 * m1v.size && in_sub(ki, j) implies m1v.node_ok(j) by {
                        if j != ki {
                            lemma_in_sub_down(ki, j);
                        } else {
                            assert(m1v.node@[ki] == pre.node@[ki]);
                            assert(pre.node_ok(ki));
                        }
                    }
                    Self::lemma_frames_trans(pre, m0, m1v, ki);
                    let mm = r1.0 as int;
                    assert(pfx@ + s1.subrange(lo, mm - kl) =~= pfx@ + (s1 + s2).subrange(
                        lo,
                        mm - kl,
                    ));
                    assert(s1[mm - kl] == (s1 + s2)[mm - kl]);
                }
                return r1;
            }
            acc = r1.1;
            proof {
                pfx2 = pfx@ + s1.subrange(lo, mid - kl);
                assert(acc == fold_op::<H>(pfx2));
                assert(pfx2.len() > 0);
            }
        }
        let ghost mb = *self;
        proof {
            assert(mb.subtree(2 * ki) == s1);
            assert(mb.subtree(2 * ki + 1) == s2);
            assert(mb.good(2 * ki + 1));
            assert(mb.node@[ki] == pre.node@[ki]);
            if l < mid {
            } else {
                Self::lemma_frames(m0, mb, ki);
            }
        }
        let r2 = self.max_right_rec(2 * k + 1, mid, kr, l, acc, pred, Ghost(hm), Ghost(pfx2));
        proof {
            let mm = r2.0 as int;
            let fin = *self;
            Self::lemma_frame_other(mb, fin, 2 * ki + 1, 2 * ki, ki);
            Self::lemma_frames_widen(mb, fin, 2 * ki + 1, ki);
            Self::lemma_frames_trans(m0, mb, fin, ki);
            Self::lemma_frames_trans(pre, m0, fin, ki);
            assert(fin.subtree(2 * ki + 1) == s2);
            assert(fin.subtree(2 * ki) == s1);
            lemma_map_f_id::<H>(s1 + s2);
            assert(fin.subtree(ki) == s1 + s2);
            assert(fin.good(2 * ki));
            assert forall|j: int| 1 <= j < 2 * fin.size && in_sub(ki, j) implies fin.node_ok(
                j,
            ) by {
                if j != ki {
                    lemma_in_sub_down(ki, j);
                } else {
                    assert(fin.node@[ki] == pre.node@[ki]);
                    assert(pre.node_ok(ki));
                }
            }
            // fold composition
            let s = s1 + s2;
            if l < mid {
                assert(pfx2 + s2.subrange(0, mm - mid) =~= pfx@ + s.subrange(lo, mm - kl));
            } else {
                assert(pfx2 + s2.subrange(l - mid, mm - mid) =~= pfx@ + s.subrange(lo, mm - kl));
            }
            if mm < kr {
                assert(s2[mm - mid] == s[mm - kl]);
            }
        }
        r2
    }

    /// Find, for a predicate that accepts the identity aggregate, a maximal
    /// prefix end: returns `m` with `l <= m <= len` such that `pred`
    /// accepted the aggregate of `[l, m)` (if `m > l`) and rejected the
    /// aggregate of `[l, m + 1)` (if `m < len`).  For a monotone predicate
    /// this pins `m` uniquely.  The elements are unchanged.
    pub fn max_right<P: Fn(&H::S) -> bool>(&mut self, l: usize, pred: P) -> (m: usize)
        requires
            old(self).inv(),
            l <= old(self)@.len(),
            forall|s: H::S| #[trigger] call_requires(pred, (&s,)),
            forall|b: bool| call_ensures(pred, (&H::spec_e(),), b) ==> b,
        ensures
            final(self).inv(),
            final(self)@ == old(self)@,
            l <= m <= final(self)@.len(),
            m > l ==> call_ensures(
                pred,
                (&fold_op::<H>(old(self)@.subrange(l as int, m as int)),),
                true,
            ),
            m < old(self)@.len() ==> call_ensures(
                pred,
                (&fold_op::<H>(old(self)@.subrange(l as int, m as int + 1)),),
                false,
            ),
    {
        let ghost pre = *self;
        let ghost h: nat = choose|hh: nat| pre.size == pow2(hh);
        proof {
            assert(pre.size == pow2(h));
            assert(1 * pow2(h) == pow2(h));
            assert(2 * pow2(h) == 2 * pre.size);
            assert(pre.covers(1, 0, pre.size as int, h));
            pre.lemma_covers_props(1, 0, pre.size as int, h);
        }
        if l == self.len {
            return l;
        }
        let e0 = H::e();
        let sz = self.size;
        let r = self.max_right_rec(1, 0, sz, l, e0, &pred, Ghost(h), Ghost(Seq::empty()));
        let m = if r.0 < self.len {
            r.0
        } else {
            self.len
        };
        proof {
            let fin = *self;
            let s = pre.subtree(1);
            assert(fin.subtree(1) == s);
            assert(fin@ =~= pre@);
            assert forall|q: int| fin.len <= q < fin.size implies #[trigger] fin.subtree(1)[q]
                == H::spec_e() by {
                assert(fin.subtree(1)[q] == pre.subtree(1)[q]);
                assert(pre.subtree(1)[q] == H::spec_e());
            }
            let r0 = r.0 as int;
            let li = l as int;
            let mi = m as int;
            assert(Seq::empty() + s.subrange(li, r0) =~= s.subrange(li, r0));
            assert(r.1 == fold_op::<H>(s.subrange(li, r0)));
            if m > l {
                assert(call_ensures(pred, (&r.1,), true));
                if r0 <= pre.len {
                    assert(s.subrange(li, r0) =~= pre@.subrange(li, mi));
                } else {
                    let body = pre@.subrange(li, pre.len as int);
                    let pad = s.subrange(pre.len as int, r0);
                    assert(s.subrange(li, r0) =~= body + pad);
                    lemma_fold_concat::<H>(body, pad);
                    lemma_fold_all_e::<H>(pad);
                    H::op_identity(fold_op::<H>(body));
                    assert(body =~= pre@.subrange(li, mi));
                }
            }
            if m < self.len {
                assert(r0 == mi);
                assert(call_ensures(pred, (&H::spec_op(r.1, s[mi]),), false));
                let withnext = pre@.subrange(li, mi + 1);
                assert(withnext =~= pre@.subrange(li, mi).push(pre@[mi]));
                lemma_fold_push::<H>(pre@.subrange(li, mi), pre@[mi]);
                assert(pre@.subrange(li, mi) =~= s.subrange(li, r0));
                assert(pre@[mi] == s[mi]);
            }
        }
        m
    }

    /// Walk the window of `k` right to left ending at absolute position `r`,
    /// greedily extending the accumulated suffix aggregate `sm` (the fold of
    /// the ghost suffix `sfx`) as long as `pred` accepts it.  Returns the
    /// lowest position reached, together with the accumulated aggregate.
    #[verifier::rlimit(100)]
    #[verifier::spinoff_prover]
    fn min_left_rec<P: Fn(&H::S) -> bool>(
        &mut self,
        k: usize,
        kl: usize,
        kr: usize,
        r: usize,
        sm: H::S,
        pred: &P,
        h: Ghost<nat>,
        sfx: Ghost<Seq<H::S>>,
    ) -> (res: (usize, H::S))
        requires
            old(self).wf_shape(),
            old(self).covers(k as int, kl as int, kr as int, h@),
            old(self).good(k as int),
            kl < r,
            forall|s: H::S| #[trigger] call_requires(*pred, (&s,)),
            sm == fold_op::<H>(sfx@),
            sfx@.len() > 0 ==> call_ensures(*pred, (&sm,), true),
        ensures
            final(self).wf_shape(),
            Self::frames(*old(self), *final(self), k as int),
            final(self).good(k as int),
            final(self).subtree(k as int) == old(self).subtree(k as int),
            ({
                let s = old(self).subtree(k as int);
                let hi: int = if r >= kr {
                    kr - kl
                } else {
                    r - kl
                };
                let m = res.0 as int;
                &&& kl <= m <= kl + hi
                &&& res.1 == fold_op::<H>(s.subrange(m - kl, hi) + sfx@)
                &&& ((sfx@.len() > 0 || m - kl < hi) ==> call_ensures(*pred, (&res.1,), true))
                &&& (m > kl ==> call_ensures(*pred, (&H::spec_op(s[m - 1 - kl], res.1),), false))
            }),
        decreases kr - kl,
    {
        let ghost pre = *self;
        let ghost ki = k as int;
        proof {
            pre.lemma_covers_props(ki, kl as int, kr as int, h@);
            lemma_in_sub_self(ki);
        }
        if r >= kr {
            let nodev = self.node[k];
            let t = H::op(&nodev, &sm);
            if (*pred)(&t) {
                proof {
                    assert(pre.node_ok(ki));
                    lemma_fold_concat::<H>(pre.subtree(ki), sfx@);
                    assert(pre.subtree(ki).subrange(0, kr - kl) =~= pre.subtree(ki));
                    Self::lemma_frames(pre, pre, ki);
                }
                return (kl, t);
            }
            if kr - kl == 1 {
                proof {
                    assert(pre.node_ok(ki));
                    assert(pre.subtree(ki)[0] == pre.node@[ki]);
                    assert(pre.subtree(ki).subrange(1, 1) + sfx@ =~= sfx@);
                    Self::lemma_frames(pre, pre, ki);
                }
                return (kr, sm);
            }
        }
        proof {
            if ki >= pre.size {
                assert(kr - kl == 1);
                assert(false);
            }
            pre.lemma_good_children(ki);
        }
        self.push(k);
        let ghost m0 = *self;
        let ghost hm: nat = (h@ - 1) as nat;
        let mid = kl + (kr - kl) / 2;
        proof {
            assert(mid - kl == pow2(hm)) by {
                lemma_pow2_adds(1, hm);
                lemma2_to64();
            }
            assert(m0.covers(2 * ki, kl as int, mid as int, hm));
            assert(m0.covers(2 * ki + 1, mid as int, kr as int, hm));
            m0.lemma_covers_props(2 * ki, kl as int, mid as int, hm);
            m0.lemma_covers_props(2 * ki + 1, mid as int, kr as int, hm);
        }
        let ghost s1 = m0.subtree(2 * ki);
        let ghost s2 = m0.subtree(2 * ki + 1);
        proof {
            lemma_map_f_id::<H>(s1 + s2);
            assert(m0.subtree(ki) == s1 + s2);
            assert(pre.subtree(ki) == s1 + s2);
        }
        let ghost hi: int = if r >= kr {
            (kr - kl) as int
        } else {
            r - kl
        };
        let mut acc = sm;
        let ghost mut sfx2 = sfx@;
        if mid < r {
            let r2 = self.min_left_rec(2 * k + 1, mid, kr, r, acc, pred, Ghost(hm), Ghost(sfx2));
            let ghost m1 = *self;
            proof {
                Self::lemma_frame_other(m0, m1, 2 * ki + 1, 2 * ki, ki);
                Self::lemma_frames_widen(m0, m1, 2 * ki + 1, ki);
            }
            if r2.0 > mid {
                proof {
                    let m1v = *self;
                    assert(m1v.subtree(2 * ki) == s1);
                    assert(m1v.subtree(2 * ki + 1) == s2);
                    lemma_map_f_id::<H>(s1 + s2);
                    assert(m1v.subtree(ki) == s1 + s2);
                    assert(m1v.good(2 * ki));
                    assert forall|j: int|
                        1 <= j < 2 * m1v.size && in_sub(ki, j) implies m1v.node_ok(j) by {
                        if j != ki {
                            lemma_in_sub_down(ki, j);
                        } else {
                            assert(m1v.node@[ki] == pre.node@[ki]);
                            assert(pre.node_ok(ki));
                        }
                    }
                    Self::lemma_frames_trans(pre, m0, m1v, ki);
                    let mm = r2.0 as int;
                    let hi2: int = if r >= kr {
                        (kr - mid) as int
                    } else {
                        r - mid
                    };
                    assert(s2.subrange(mm - mid, hi2) + sfx@ =~= (s1 + s2).subrange(mm - kl, hi)
                        + sfx@);
                    assert(s2[mm - 1 - mid] == (s1 + s2)[mm - 1 - kl]);
                }
                return r2;
            }
            acc = r2.1;
            proof {
                let hi2: int = if r >= kr {
                    (kr - mid) as int
                } else {
                    r - mid
                };
                sfx2 = s2.subrange(0, hi2) + sfx@;
                assert(acc == fold_op::<H>(sfx2));
                assert(sfx2.len() > 0);
            }
        }
        let ghost mb = *self;
        proof {
            assert(mb.subtree(2 * ki) == s1);
            assert(mb.subtree(2 * ki + 1) == s2);
            assert(mb.good(2 * ki));
            assert(mb.node@[ki] == pre.node@[ki]);
            if mid < r {
            } else {
                Self::lemma_frames(m0, mb, ki);
            }
        }
        let r1 = self.min_left_rec(2 * k, kl, mid, r, acc, pred, Ghost(hm), Ghost(sfx2));
        proof {
            let mm = r1.0 as int;
            let fin = *self;
            Self::lemma_frame_other(mb, fin, 2 * ki, 2 * ki + 1, ki);
            Self::lemma_frames_widen(mb, fin, 2 * ki, ki);
            Self::lemma_frames_trans(m0, mb, fin, ki);
            Self::lemma_frames_trans(pre, m0, fin, ki);
            assert(fin.subtree(2 * ki + 1) == s2);
            assert(fin.subtree(2 * ki) == s1);
            lemma_map_f_id::<H>(s1 + s2);
            assert(fin.subtree(ki) == s1 + s2);
            assert(fin.good(2 * ki + 1));
            assert forall|j: int| 1 <= j < 2 * fin.size && in_sub(ki, j) implies fin.node_ok(
                j,
            ) by {
                if j != ki {
                    lemma_in_sub_down(ki, j);
                } else {
                    assert(fin.node@[ki] == pre.node@[ki]);
                    assert(pre.node_ok(ki));
                }
            }
            let s = s1 + s2;
            if mid < r {
                let hi2: int = if r >= kr {
                    (kr - mid) as int
                } else {
                    r - mid
                };
                assert(s1.subrange(mm - kl, mid - kl) + (s2.subrange(0, hi2) + sfx@) =~= s.subrange(
                    mm - kl,
                    hi,
                ) + sfx@);
            } else {
                assert(s1.subrange(mm - kl, r - kl) + sfx@ =~= s.subrange(mm - kl, hi) + sfx@);
            }
            if mm > kl {
                assert(s1[mm - 1 - kl] == s[mm - 1 - kl]);
            }
        }
        r1
    }

    /// Find, for a predicate that accepts the identity aggregate, a minimal
    /// suffix start: returns `m` with `0 <= m <= r` such that `pred`
    /// accepted the aggregate of `[m, r)` (if `m < r`) and rejected the
    /// aggregate of `[m - 1, r)` (if `m > 0`).  For a monotone predicate
    /// this pins `m` uniquely.  The elements are unchanged.
    pub fn min_left<P: Fn(&H::S) -> bool>(&mut self, r: usize, pred: P) -> (m: usize)
        requires
            old(self).inv(),
            r <= old(self)@.len(),
            forall|s: H::S| #[trigger] call_requires(pred, (&s,)),
            forall|b: bool| call_ensures(pred, (&H::spec_e(),), b) ==> b,
        ensures
            final(self).inv(),
            final(self)@ == old(self)@,
            m <= r,
            m < r ==> call_ensures(
                pred,
                (&fold_op::<H>(old(self)@.subrange(m as int, r as int)),),
                true,
            ),
            m > 0 ==> call_ensures(
                pred,
                (&fold_op::<H>(old(self)@.subrange(m as int - 1, r as int)),),
                false,
            ),
    {
        let ghost pre = *self;
        let ghost h: nat = choose|hh: nat| pre.size == pow2(hh);
        proof {
            assert(pre.size == pow2(h));
            assert(1 * pow2(h) == pow2(h));
            assert(2 * pow2(h) == 2 * pre.size);
            assert(pre.covers(1, 0, pre.size as int, h));
            pre.lemma_covers_props(1, 0, pre.size as int, h);
        }
        if r == 0 {
            return 0;
        }
        let e0 = H::e();
        let sz = self.size;
        let res = self.min_left_rec(1, 0, sz, r, e0, &pred, Ghost(h), Ghost(Seq::empty()));
        let m = res.0;
        proof {
            let fin = *self;
            let s = pre.subtree(1);
            assert(fin.subtree(1) == s);
            assert(fin@ =~= pre@);
            assert forall|q: int| fin.len <= q < fin.size implies #[trigger] fin.subtree(1)[q]
                == H::spec_e() by {
                assert(fin.subtree(1)[q] == pre.subtree(1)[q]);
                assert(pre.subtree(1)[q] == H::spec_e());
            }
            let mi = m as int;
            let ri = r as int;
            assert(s.subrange(mi, ri) + Seq::<H::S>::empty() =~= s.subrange(mi, ri));
            assert(res.1 == fold_op::<H>(s.subrange(mi, ri)));
            if m < r {
                assert(s.subrange(mi, ri) =~= pre@.subrange(mi, ri));
                assert(call_ensures(pred, (&res.1,), true));
            }
            if m > 0 {
                assert(call_ensures(pred, (&H::spec_op(s[mi - 1], res.1),), false));
                let withprev = pre@.subrange(mi - 1, ri);
                assert(withprev =~= seq![pre@[mi - 1]] + pre@.subrange(mi, ri));
                lemma_fold_concat::<H>(seq![pre@[mi - 1]], pre@.subrange(mi, ri));
                assert(fold_op::<H>(seq![pre@[mi - 1]]) == pre@[mi - 1]);
                assert(pre@.subrange(mi, ri) =~= s.subrange(mi, ri));
                assert(pre@[mi - 1] == s[mi - 1]);
            }
        }
        m
    }

    /// The aggregate of all elements.  Reads the root directly; the padding
    /// past `len` holds identity aggregates, so it does not disturb the fold.
    pub fn all_prod(&self) -> (res: H::S)
        requires
            self.inv(),
        ensures
            res == fold_op::<H>(self@),
    {
        proof {
            self.lemma_root_covers();
            lemma_in_sub_self(1);
            assert(self.node_ok(1));
            let pad = self.subtree(1).skip(self.len as int);
            assert(self.subtree(1) =~= self@ + pad);
            lemma_fold_concat::<H>(self@, pad);
            lemma_fold_all_e::<H>(pad);
            H::op_identity(fold_op::<H>(self@));
        }
        self.node[1]
    }
}

impl<H: LazySegtreeHelper> View for LazySegtree<H> {
    type V = Seq<H::S>;

    /// The resolved sequence of the `len` logical elements.
    closed spec fn view(&self) -> Seq<H::S> {
        self.subtree(1).take(self.len as int)
    }
}

} // verus!
