use vstd::prelude::*;

use vstd::arithmetic::div_mod::{
    lemma_add_mod_noop, lemma_add_mod_noop_right, lemma_mod_sub_multiples_vanish,
    lemma_mul_mod_noop_left, lemma_mul_mod_noop_right, lemma_small_mod,
};
use vstd::arithmetic::mul::{
    lemma_mul_is_distributive_add, lemma_mul_is_distributive_add_other_way,
};

use crate::helper::LazySegtreeHelper;

verus! {

/// A range-sum aggregate: the sum of a segment's elements together with the
/// number of elements the sum spans, both modulo `2^64`.  The count is what
/// lets an operator "add `f` to every element" act on the aggregate alone.
#[derive(Clone, Copy, PartialEq, Eq, Debug)]
pub struct SumCount {
    pub sum: u64,
    pub count: u64,
}

/// Addition modulo `2^64`.
pub open spec fn wadd(x: u64, y: u64) -> u64 {
    ((x + y) % 0x1_0000_0000_0000_0000int) as u64
}

/// Multiplication modulo `2^64`.
pub open spec fn wmul(x: u64, y: u64) -> u64 {
    ((x * y) % 0x1_0000_0000_0000_0000int) as u64
}

proof fn lemma_wadd_unfold(a: int, b: int)
    ensures
        (a % 0x1_0000_0000_0000_0000int + b % 0x1_0000_0000_0000_0000int)
            % 0x1_0000_0000_0000_0000int == (a + b) % 0x1_0000_0000_0000_0000int,
        (a % 0x1_0000_0000_0000_0000int + b) % 0x1_0000_0000_0000_0000int == (a + b)
            % 0x1_0000_0000_0000_0000int,
        (a + b % 0x1_0000_0000_0000_0000int) % 0x1_0000_0000_0000_0000int == (a + b)
            % 0x1_0000_0000_0000_0000int,
{
    let m = 0x1_0000_0000_0000_0000int;
    lemma_add_mod_noop(a, b, m);
    lemma_add_mod_noop_right(a, b, m);
    lemma_add_mod_noop_right(b, a, m);
}

proof fn lemma_wmul_unfold(a: int, b: int)
    ensures
        ((a % 0x1_0000_0000_0000_0000int) * b) % 0x1_0000_0000_0000_0000int == (a * b)
            % 0x1_0000_0000_0000_0000int,
        (a * (b % 0x1_0000_0000_0000_0000int)) % 0x1_0000_0000_0000_0000int == (a * b)
            % 0x1_0000_0000_0000_0000int,
{
    let m = 0x1_0000_0000_0000_0000int;
    lemma_mul_mod_noop_left(a, b, m);
    lemma_mul_mod_noop_right(a, b, m);
}

proof fn lemma_u64_mod(a: u64)
    ensures
        (a as int) % 0x1_0000_0000_0000_0000int == a as int,
{
    lemma_small_mod(a as nat, 0x1_0000_0000_0000_0000nat);
}

/// `u64::wrapping_add` computes addition modulo `2^64`.
proof fn lemma_wrapping_add(a: u64, b: u64)
    ensures
        vstd::wrapping::u64_specs::wrapping_add(a, b) == wadd(a, b),
{
    let m = 0x1_0000_0000_0000_0000int;
    if a + b > u64::MAX {
        lemma_mod_sub_multiples_vanish(a + b, m);
        lemma_small_mod((a + b - m) as nat, m as nat);
    } else {
        lemma_small_mod((a + b) as nat, m as nat);
    }
}

/// `u64::wrapping_mul` computes multiplication modulo `2^64`.
proof fn lemma_wrapping_mul(a: u64, b: u64)
    ensures
        vstd::wrapping::u64_specs::wrapping_mul(a, b) == wmul(a, b),
{
    assert(a as nat * b as nat == (a * b) as nat);
}

/// The range-add / range-sum algebra: aggregates are segment sums with
/// counts, operators are amounts added to every element of a segment, and
/// all arithmetic wraps modulo `2^64`, which keeps every law exact.
pub struct RangeAddSum;

impl LazySegtreeHelper for RangeAddSum {
    type S = SumCount;

    type F = u64;

    open spec fn spec_op(x: SumCount, y: SumCount) -> SumCount {
        SumCount { sum: wadd(x.sum, y.sum), count: wadd(x.count, y.count) }
    }

    open spec fn spec_e() -> SumCount {
        SumCount { sum: 0, count: 0 }
    }

    open spec fn spec_mapping(f: u64, x: SumCount) -> SumCount {
        SumCount { sum: wadd(x.sum, wmul(f, x.count)), count: x.count }
    }

    open spec fn spec_composition(f: u64, g: u64) -> u64 {
        wadd(f, g)
    }

    open spec fn spec_id() -> u64 {
        0
    }

    open spec fn spec_is_failed(x: SumCount) -> bool {
        false
    }

    proof fn op_associative(x: SumCount, y: SumCount, z: SumCount)
    {
        lemma_wadd_unfold(x.sum + y.sum, z.sum as int);
        lemma_wadd_unfold(x.sum as int, y.sum + z.sum);
        lemma_wadd_unfold(x.count + y.count, z.count as int);
        lemma_wadd_unfold(x.count as int, y.count + z.count);
    }

    proof fn op_identity(x: SumCount)
    {
        lemma_u64_mod(x.sum);
        lemma_u64_mod(x.count);
    }

    proof fn composition_identity(f: u64)
    {
        lemma_u64_mod(f);
    }

    proof fn mapping_identity(x: SumCount)
    {
        let m = 0x1_0000_0000_0000_0000int;
        assert(0 * x.count == 0);
        assert((0int) % m == 0);
        lemma_u64_mod(x.sum);
    }

    proof fn composition_mapping(f: u64, g: u64, x: SumCount)
    {
        let m = 0x1_0000_0000_0000_0000int;
        let xs = x.sum as int;
        let xc = x.count as int;
        // left side: (xs + ((f + g) % m) * xc % m) % m
        lemma_wmul_unfold(f + g, xc);
        lemma_mul_is_distributive_add_other_way(xc, f as int, g as int);
        lemma_wadd_unfold(xs, f * xc + g * xc);
        // right side: ((xs + g * xc % m) % m + f * xc % m) % m
        lemma_wadd_unfold(xs, g * xc);
        lemma_wadd_unfold(xs + g * xc, f * xc);
        assert(wmul(Self::spec_composition(f, g), x.count) == ((f * xc + g * xc) % m) as u64);
        assert(wadd(x.sum, wmul(Self::spec_composition(f, g), x.count)) == ((xs + (f * xc + g
            * xc)) % m) as u64) by {
            lemma_wadd_unfold(xs, (f * xc + g * xc) % m);
            lemma_wadd_unfold(xs, f * xc + g * xc);
        }
    }

    proof fn mapping_op(f: u64, x: SumCount, y: SumCount)
    {
        let m = 0x1_0000_0000_0000_0000int;
        let xs = x.sum as int;
        let ys = y.sum as int;
        let xc = x.count as int;
        let yc = y.count as int;
        let fi = f as int;
        // left: ((xs + ys) % m + f * ((xc + yc) % m) % m) % m
        lemma_wmul_unfold(fi, xc + yc);
        lemma_mul_is_distributive_add(fi, xc, yc);
        assert(wmul(f, wadd(x.count, y.count)) == ((fi * xc + fi * yc) % m) as u64);
        assert(wadd(wadd(x.sum, y.sum), wmul(f, wadd(x.count, y.count))) == ((xs + ys + fi * xc
            + fi * yc) % m) as u64) by {
            lemma_wadd_unfold(xs + ys, (fi * xc + fi * yc) % m);
            lemma_wadd_unfold(xs + ys, fi * xc + fi * yc);
        }
        // right: ((xs + f * xc % m) % m + (ys + f * yc % m) % m) % m
        assert(wadd(x.sum, wmul(f, x.count)) == ((xs + fi * xc) % m) as u64) by {
            lemma_wadd_unfold(xs, fi * xc);
        }
        assert(wadd(y.sum, wmul(f, y.count)) == ((ys + fi * yc) % m) as u64) by {
            lemma_wadd_unfold(ys, fi * yc);
        }
        assert(wadd(
            Self::spec_mapping(f, x).sum,
            Self::spec_mapping(f, y).sum,
        ) == ((xs + fi * xc + ys + fi * yc) % m) as u64) by {
            lemma_add_mod_noop(xs + fi * xc, ys + fi * yc, m);
        }
    }

    fn op(x: &SumCount, y: &SumCount) -> (r: SumCount)
    {
        proof {
            lemma_wrapping_add(x.sum, y.sum);
            lemma_wrapping_add(x.count, y.count);
        }
        SumCount { sum: x.sum.wrapping_add(y.sum), count: x.count.wrapping_add(y.count) }
    }

    fn e() -> (r: SumCount)
    {
        SumCount { sum: 0, count: 0 }
    }

    fn mapping(f: &u64, x: &SumCount) -> (r: SumCount)
    {
        let delta = f.wrapping_mul(x.count);
        proof {
            lemma_wrapping_mul(*f, x.count);
            lemma_wrapping_add(x.sum, delta);
        }
        SumCount { sum: x.sum.wrapping_add(delta), count: x.count }
    }

    fn composition(f: &u64, g: &u64) -> (r: u64)
    {
        proof {
            lemma_wrapping_add(*f, *g);
        }
        f.wrapping_add(*g)
    }

    fn id() -> (r: u64)
    {
        0
    }

    fn is_failed(x: &SumCount) -> (r: bool)
    {
        false
    }
}

/// A segment element carrying the value `v`: a one-element aggregate.
pub fn single(v: u64) -> (r: SumCount)
    ensures
        r == (SumCount { sum: v, count: 1 }),
{
    SumCount { sum: v, count: 1 }
}

} // verus!

