use vstd::prelude::*;

use vstd::arithmetic::div_mod::{
    lemma_add_mod_noop, lemma_add_mod_noop_right, lemma_mod_sub_multiples_vanish,
    lemma_mul_mod_noop_left, lemma_mul_mod_noop_right, lemma_small_mod,
};
use vstd::arithmetic::mul::{
    lemma_mul_is_distributive_add, lemma_mul_is_distributive_add_other_way,
};

use crate::algebra::{wadd, wmul};
use crate::helper::LazySegtreeHelper;

verus! {

/// Subtraction modulo `2^64`.
pub open spec fn wsub(x: u64, y: u64) -> u64 {
    ((x - y) % 0x1_0000_0000_0000_0000int) as u64
}

/// The larger of two "value or absent" maxima, with absent below everything.
pub open spec fn max_opt(a: Option<u64>, b: Option<u64>) -> Option<u64> {
    match (a, b) {
        (None, _) => b,
        (_, None) => a,
        (Some(x), Some(y)) => if x >= y {
            Some(x)
        } else {
            Some(y)
        },
    }
}

/// Strict order on "value or absent" maxima, with absent below everything.
pub open spec fn opt_gt(a: Option<u64>, b: Option<u64>) -> bool {
    match (a, b) {
        (None, _) => false,
        (Some(_), None) => true,
        (Some(x), Some(y)) => x > y,
    }
}

/// Whether the bound `w` lies strictly above a "value or absent" field.
pub open spec fn below(a: Option<u64>, w: u64) -> bool {
    match a {
        None => true,
        Some(v) => v < w,
    }
}

/// The aggregate of a "clamp to at most `w`" / range-sum segment tree with
/// beats: the segment's wrapped sum, its maximum and how many elements
/// attain it (absent maximum for the empty segment), the strict second
/// maximum (absent when every element equals the maximum), the element
/// count, and the failure flag that requests an exact repair.
#[derive(Clone, Copy, PartialEq, Eq, Debug)]
pub struct ChminAgg {
    pub sum: u64,
    pub max: Option<u64>,
    pub max_count: u64,
    pub second: Option<u64>,
    pub count: u64,
    pub failed: bool,
}

/// The canonical failed aggregate: produced whenever a clamp cannot be
/// represented on the aggregate alone, and repaired by the tree before it is
/// ever read.
pub open spec fn spec_poison() -> ChminAgg {
    ChminAgg { sum: 0, max: None, max_count: 0, second: None, count: 0, failed: true }
}

/// The range-clamp ("chmin") / range-sum algebra with beats.  An operator is
/// a bound `w`, clamping every element of the segment to at most `w`;
/// `u64::MAX` is the identity.  A clamp that cuts at or below the segment's
/// second maximum cannot be represented on the aggregate and yields the
/// failed marker, which the tree repairs by pushing down and recombining.
pub struct ChminSum;

impl LazySegtreeHelper for ChminSum {
    type S = ChminAgg;

    type F = u64;

    open spec fn spec_op(x: ChminAgg, y: ChminAgg) -> ChminAgg {
        ChminAgg {
            sum: wadd(x.sum, y.sum),
            max: max_opt(x.max, y.max),
            max_count: if x.max == y.max {
                wadd(x.max_count, y.max_count)
            } else if opt_gt(x.max, y.max) {
                x.max_count
            } else {
                y.max_count
            },
            second: if x.max == y.max {
                max_opt(x.second, y.second)
            } else if opt_gt(x.max, y.max) {
                max_opt(x.second, y.max)
            } else {
                max_opt(y.second, x.max)
            },
            count: wadd(x.count, y.count),
            failed: x.failed || y.failed,
        }
    }

    open spec fn spec_e() -> ChminAgg {
        ChminAgg { sum: 0, max: None, max_count: 0, second: None, count: 0, failed: false }
    }

    open spec fn spec_mapping(w: u64, x: ChminAgg) -> ChminAgg {
        match x.max {
            None => x,
            Some(mx) => if w >= mx {
                x
            } else if below(x.second, w) {
                ChminAgg {
                    sum: wadd(x.sum, wmul(x.max_count, wsub(w, mx))),
                    max: Some(w),
                    max_count: x.max_count,
                    second: x.second,
                    count: x.count,
                    failed: x.failed,
                }
            } else {
                spec_poison()
            },
        }
    }

    open spec fn spec_composition(f: u64, g: u64) -> u64 {
        if f <= g {
            f
        } else {
            g
        }
    }

    open spec fn spec_id() -> u64 {
        u64::MAX
    }

    open spec fn spec_is_failed(x: ChminAgg) -> bool {
        x.failed
    }

    proof fn op_associative(x: ChminAgg, y: ChminAgg, z: ChminAgg)
    {
        lemma_chmin_wadd_assoc(x.sum, y.sum, z.sum);
        lemma_chmin_wadd_assoc(x.count, y.count, z.count);
        lemma_chmin_wadd_assoc(x.max_count, y.max_count, z.max_count);
    }

    proof fn op_identity(x: ChminAgg)
    {
        lemma_chmin_u64_mod(x.sum);
        lemma_chmin_u64_mod(x.count);
        lemma_chmin_u64_mod(x.max_count);
    }

    proof fn composition_identity(f: u64)
    {
    }

    proof fn mapping_identity(x: ChminAgg)
    {
    }

    proof fn composition_mapping(f: u64, g: u64, x: ChminAgg)
    {
        if x.max is Some {
            let mx = x.max->0;
            if g >= mx {
                // the earlier clamp does nothing
            } else if below(x.second, g) {
                let x1 = Self::spec_mapping(g, x);
                if f >= g {
                    assert(Self::spec_mapping(f, x1) == x1);
                } else if below(x.second, f) {
                    lemma_chmin_telescope(f, g, x);
                } else {
                    // the later clamp fails on the aggregate either way
                }
            } else {
                // the earlier clamp already fails; the later one sees the
                // poison value, whose maximum is absent, and leaves it alone
            }
        }
    }

    proof fn mapping_op(w: u64, x: ChminAgg, y: ChminAgg)
    {
        let p = Self::spec_op(x, y);
        if !Self::spec_is_failed(Self::spec_mapping(w, p)) {
            if p.max is Some && w < p.max->0 {
                assert(below(p.second, w));
                if x.max == y.max {
                    assert(below(x.second, w) && below(y.second, w));
                    lemma_chmin_sum_distributes(w, x, y);
                } else if opt_gt(x.max, y.max) {
                    assert(below(x.second, w) && below(y.max, w));
                    assert(Self::spec_mapping(w, y) == y);
                    lemma_chmin_sum_one_side(w, x, y);
                } else {
                    assert(below(y.second, w) && below(x.max, w));
                    assert(Self::spec_mapping(w, x) == x);
                    lemma_chmin_sum_other_side(w, x, y);
                }
            }
        }
    }

    fn op(x: &ChminAgg, y: &ChminAgg) -> (r: ChminAgg)
    {
        proof {
            lemma_chmin_wrapping_add(x.sum, y.sum);
            lemma_chmin_wrapping_add(x.max_count, y.max_count);
            lemma_chmin_wrapping_add(x.count, y.count);
        }
        let (eq, gt) = opt_cmp(&x.max, &y.max);
        let max_count = if eq {
            x.max_count.wrapping_add(y.max_count)
        } else if gt {
            x.max_count
        } else {
            y.max_count
        };
        let second = if eq {
            opt_max(x.second, y.second)
        } else if gt {
            opt_max(x.second, y.max)
        } else {
            opt_max(y.second, x.max)
        };
        ChminAgg {
            sum: x.sum.wrapping_add(y.sum),
            max: opt_max(x.max, y.max),
            max_count,
            second,
            count: x.count.wrapping_add(y.count),
            failed: x.failed || y.failed,
        }
    }

    fn e() -> (r: ChminAgg)
    {
        ChminAgg { sum: 0, max: None, max_count: 0, second: None, count: 0, failed: false }
    }

    fn mapping(w: &u64, x: &ChminAgg) -> (r: ChminAgg)
    {
        match x.max {
            None => *x,
            Some(mx) => if *w >= mx {
                *x
            } else {
                let applies = match x.second {
                    None => true,
                    Some(v) => v < *w,
                };
                if applies {
                    let delta = x.max_count.wrapping_mul(w.wrapping_sub(mx));
                    proof {
                        lemma_chmin_wrapping_sub(*w, mx);
                        lemma_chmin_wrapping_mul(
                            x.max_count,
                            vstd::wrapping::u64_specs::wrapping_sub(*w, mx),
                        );
                        lemma_chmin_wrapping_add(x.sum, delta);
                    }
                    ChminAgg {
                        sum: x.sum.wrapping_add(delta),
                        max: Some(*w),
                        max_count: x.max_count,
                        second: x.second,
                        count: x.count,
                        failed: x.failed,
                    }
                } else {
                    ChminAgg {
                        sum: 0,
                        max: None,
                        max_count: 0,
                        second: None,
                        count: 0,
                        failed: true,
                    }
                }
            },
        }
    }

    fn composition(f: &u64, g: &u64) -> (r: u64)
    {
        if *f <= *g {
            *f
        } else {
            *g
        }
    }

    fn id() -> (r: u64)
    {
        u64::MAX
    }

    fn is_failed(x: &ChminAgg) -> (r: bool)
    {
        x.failed
    }
}

/// Compare two optional maxima: returns whether they are equal and whether
/// the first is strictly greater, with absent below everything.
fn opt_cmp(a: &Option<u64>, b: &Option<u64>) -> (r: (bool, bool))
    ensures
        r.0 == (*a == *b),
        r.1 == opt_gt(*a, *b),
{
    match (a, b) {
        (None, None) => (true, false),
        (None, Some(_)) => (false, false),
        (Some(_), None) => (false, true),
        (Some(x), Some(y)) => (*x == *y, *x > *y),
    }
}

/// The larger of two optional maxima, executable form.
fn opt_max(a: Option<u64>, b: Option<u64>) -> (r: Option<u64>)
    ensures
        r == max_opt(a, b),
{
    match (a, b) {
        (None, _) => b,
        (_, None) => a,
        (Some(x), Some(y)) => if x >= y {
            Some(x)
        } else {
            Some(y)
        },
    }
}

/// A segment element carrying the value `v`: a one-element aggregate whose
/// second maximum is absent, so a clamp on it is always exact.
pub fn chmin_single(v: u64) -> (r: ChminAgg)
    ensures
        r == (ChminAgg {
            sum: v,
            max: Some(v),
            max_count: 1,
            second: None,
            count: 1,
            failed: false,
        }),
{
    ChminAgg { sum: v, max: Some(v), max_count: 1, second: None, count: 1, failed: false }
}

proof fn lemma_chmin_u64_mod(a: u64)
    ensures
        (a as int) % 0x1_0000_0000_0000_0000int == a as int,
{
    lemma_small_mod(a as nat, 0x1_0000_0000_0000_0000nat);
}

proof fn lemma_chmin_wadd_assoc(a: u64, b: u64, c: u64)
    ensures
        wadd(wadd(a, b), c) == wadd(a, wadd(b, c)),
{
    let m = 0x1_0000_0000_0000_0000int;
    lemma_small_mod(c as nat, m as nat);
    lemma_add_mod_noop(a + b, c as int, m);
    lemma_small_mod(a as nat, m as nat);
    lemma_add_mod_noop(a as int, b + c, m);
}

proof fn lemma_chmin_wrapping_add(a: u64, b: u64)
    ensures
        vstd::wrapping::u64_specs::wrapping_add(a, b) == wadd(a, b),
{
    let m = 0x1_0000_0000_0000_0000int;
    if a + b > u64::MAX {
        lemma_mod_sub_multiples_vanish(a + b, m);
        lemma_small_mod((a + b - m) as nat, m as nat);
    } else {
        lemma_small_mod((a + b) as nat, m as nat);
    }
}

proof fn lemma_chmin_wrapping_sub(a: u64, b: u64)
    ensures
        vstd::wrapping::u64_specs::wrapping_sub(a, b) == wsub(a, b),
{
    let m = 0x1_0000_0000_0000_0000int;
    if a - b < 0 {
        assert((a - b + m) % m == (a - b) % m) by {
            lemma_mod_sub_multiples_vanish(a - b + m, m);
        }
        lemma_small_mod((a - b + m) as nat, m as nat);
    } else {
        lemma_small_mod((a - b) as nat, m as nat);
    }
}

proof fn lemma_chmin_wrapping_mul(a: u64, b: u64)
    ensures
        vstd::wrapping::u64_specs::wrapping_mul(a, b) == wmul(a, b),
{
    assert(a as nat * b as nat == (a * b) as nat);
}

/// Two exact clamps in a row, the second cutting deeper, act like the single
/// deeper clamp: the sum adjustments telescope.
#[verifier::rlimit(100)]
#[verifier::spinoff_prover]
proof fn lemma_chmin_telescope(f: u64, g: u64, x: ChminAgg)
    requires
        x.max is Some,
        g < x.max->0,
        f < g,
        below(x.second, g),
        below(x.second, f),
    ensures
        ChminSum::spec_mapping(f, ChminSum::spec_mapping(g, x)) == ChminSum::spec_mapping(
            ChminSum::spec_composition(f, g),
            x,
        ),
{
    let m = 0x1_0000_0000_0000_0000int;
    let mx = x.max->0;
    let x1 = ChminSum::spec_mapping(g, x);
    let c = x.max_count as int;
    let s = x.sum as int;
    assert(x1.sum as int == (s + c * (g - mx)) % m) by {
        lemma_mul_mod_noop_right(c, g - mx, m);
        lemma_add_mod_noop_right(s, c * (g - mx), m);
        lemma_add_mod_noop_right(s, c * ((g - mx) % m), m);
    }
    let s1 = x1.sum as int;
    assert(ChminSum::spec_mapping(f, x1).sum as int == (s1 + c * (f - g)) % m) by {
        lemma_mul_mod_noop_right(c, f - g, m);
        lemma_add_mod_noop_right(s1, c * (f - g), m);
        lemma_add_mod_noop_right(s1, c * ((f - g) % m), m);
    }
    assert((s1 + c * (f - g)) % m == (s + c * (g - mx) + c * (f - g)) % m) by {
        lemma_small_mod(((c * (f - g)) % m) as nat, m as nat);
        lemma_add_mod_noop((s + c * (g - mx)) % m, (c * (f - g)) % m, m);
        lemma_add_mod_noop(s + c * (g - mx), c * (f - g), m);
    }
    assert(c * (g - mx) + c * (f - g) == c * (f - mx)) by {
        lemma_mul_is_distributive_add(c, g - mx, f - g);
    }
    assert(ChminSum::spec_mapping(ChminSum::spec_composition(f, g), x).sum as int == (s + c * (f
        - mx)) % m) by {
        lemma_mul_mod_noop_right(c, f - mx, m);
        lemma_add_mod_noop_right(s, c * (f - mx), m);
        lemma_add_mod_noop_right(s, c * ((f - mx) % m), m);
    }
    assert(ChminSum::spec_mapping(f, x1) == ChminSum::spec_mapping(
        ChminSum::spec_composition(f, g),
        x,
    ));
}

/// When the maxima tie, clamping both sides moves `x.max_count` plus
/// `y.max_count` elements by the same amount as clamping the combination.
proof fn lemma_chmin_sum_distributes(w: u64, x: ChminAgg, y: ChminAgg)
    requires
        x.max == y.max,
        x.max is Some,
        w < x.max->0,
        below(x.second, w),
        below(y.second, w),
    ensures
        ChminSum::spec_mapping(w, ChminSum::spec_op(x, y)) == ChminSum::spec_op(
            ChminSum::spec_mapping(w, x),
            ChminSum::spec_mapping(w, y),
        ),
{
    let m = 0x1_0000_0000_0000_0000int;
    let p = ChminSum::spec_op(x, y);
    let mx = x.max->0;
    let d = (w - mx) % m;
    let cx = x.max_count as int;
    let cy = y.max_count as int;
    let sx = x.sum as int;
    let sy = y.sum as int;
    assert(below(p.second, w));
    assert(ChminSum::spec_mapping(w, p).sum as int == (sx + sy + (cx + cy) * d) % m) by {
        lemma_add_mod_noop_right(sx + sy, ((cx + cy) % m) * d, m);
        lemma_mul_mod_noop_left(cx + cy, d, m);
        lemma_add_mod_noop_right(sx + sy, (cx + cy) * d, m);
        lemma_add_mod_noop(sx + sy, (cx + cy) * d, m);
        lemma_small_mod(((sx + sy) % m) as nat, m as nat);
        lemma_small_mod((((cx + cy) % m) * d % m) as nat, m as nat);
    }
    assert(ChminSum::spec_op(
        ChminSum::spec_mapping(w, x),
        ChminSum::spec_mapping(w, y),
    ).sum as int == (sx + cx * d + sy + cy * d) % m) by {
        lemma_mul_mod_noop_right(cx, w - mx, m);
        lemma_mul_mod_noop_right(cy, w - mx, m);
        lemma_add_mod_noop_right(sx, cx * d, m);
        lemma_add_mod_noop_right(sy, cy * d, m);
        lemma_add_mod_noop(sx + cx * d, sy + cy * d, m);
    }
    assert((cx + cy) * d == cx * d + cy * d) by {
        lemma_mul_is_distributive_add_other_way(d, cx, cy);
    }
    assert(ChminSum::spec_mapping(w, p) == ChminSum::spec_op(
        ChminSum::spec_mapping(w, x),
        ChminSum::spec_mapping(w, y),
    ));
}

/// When the left side alone holds the maximum, only its elements move.
proof fn lemma_chmin_sum_one_side(w: u64, x: ChminAgg, y: ChminAgg)
    requires
        opt_gt(x.max, y.max),
        x.max is Some,
        w < x.max->0,
        below(y.max, w),
        below(x.second, w),
    ensures
        ChminSum::spec_mapping(w, ChminSum::spec_op(x, y)) == ChminSum::spec_op(
            ChminSum::spec_mapping(w, x),
            y,
        ),
{
    let m = 0x1_0000_0000_0000_0000int;
    let p = ChminSum::spec_op(x, y);
    let mx = x.max->0;
    let d = (w - mx) % m;
    let cx = x.max_count as int;
    let sx = x.sum as int;
    let sy = y.sum as int;
    assert(below(p.second, w));
    assert(ChminSum::spec_mapping(w, p).sum as int == (sx + sy + cx * d) % m) by {
        lemma_add_mod_noop_right(sx + sy, cx * d, m);
        lemma_add_mod_noop(sx + sy, cx * d, m);
        lemma_small_mod(((sx + sy) % m) as nat, m as nat);
        lemma_small_mod(((cx * d) % m) as nat, m as nat);
    }
    assert(ChminSum::spec_op(ChminSum::spec_mapping(w, x), y).sum as int == (sx + cx * d + sy)
        % m) by {
        lemma_mul_mod_noop_right(cx, w - mx, m);
        lemma_add_mod_noop_right(sx, cx * d, m);
        lemma_add_mod_noop(sx + cx * d, sy as int, m);
        lemma_small_mod(sy as nat, m as nat);
    }
    assert(ChminSum::spec_mapping(w, p) == ChminSum::spec_op(ChminSum::spec_mapping(w, x), y));
}

/// When the right side alone holds the maximum, only its elements move.
proof fn lemma_chmin_sum_other_side(w: u64, x: ChminAgg, y: ChminAgg)
    requires
        opt_gt(y.max, x.max),
        y.max is Some,
        w < y.max->0,
        below(x.max, w),
        below(y.second, w),
    ensures
        ChminSum::spec_mapping(w, ChminSum::spec_op(x, y)) == ChminSum::spec_op(
            x,
            ChminSum::spec_mapping(w, y),
        ),
{
    let m = 0x1_0000_0000_0000_0000int;
    let p = ChminSum::spec_op(x, y);
    let my = y.max->0;
    let d = (w - my) % m;
    let cy = y.max_count as int;
    let sx = x.sum as int;
    let sy = y.sum as int;
    assert(below(p.second, w));
    assert(ChminSum::spec_mapping(w, p).sum as int == (sx + sy + cy * d) % m) by {
        lemma_add_mod_noop_right(sx + sy, cy * d, m);
        lemma_add_mod_noop(sx + sy, cy * d, m);
        lemma_small_mod(((sx + sy) % m) as nat, m as nat);
        lemma_small_mod(((cy * d) % m) as nat, m as nat);
    }
    assert(ChminSum::spec_op(x, ChminSum::spec_mapping(w, y)).sum as int == (sx + sy + cy * d)
        % m) by {
        lemma_mul_mod_noop_right(cy, w - my, m);
        lemma_add_mod_noop_right(sy, cy * d, m);
        lemma_add_mod_noop(sx as int, sy + cy * d, m);
        lemma_small_mod(sx as nat, m as nat);
    }
    assert(ChminSum::spec_mapping(w, p) == ChminSum::spec_op(x, ChminSum::spec_mapping(w, y)));
}

} // verus!
