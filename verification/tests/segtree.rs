use lazy_segtree::algebra::{single, RangeAddSum, SumCount};
use lazy_segtree::LazySegtree;

type Tree = LazySegtree<RangeAddSum>;

fn build(values: &[u64]) -> Tree {
    let mut v: Vec<SumCount> = Vec::new();
    for &x in values {
        v.push(single(x));
    }
    Tree::from_vec(v)
}

/// A reference model: plain vector, all operations O(n), wrapping arithmetic.
struct Naive {
    data: Vec<u64>,
}

impl Naive {
    fn from(values: &[u64]) -> Naive {
        Naive {
            data: values.to_vec(),
        }
    }

    fn prod(&self, l: usize, r: usize) -> SumCount {
        let mut sum: u64 = 0;
        for i in l..r {
            sum = sum.wrapping_add(self.data[i]);
        }
        SumCount {
            sum,
            count: (r - l) as u64,
        }
    }

    fn apply_range(&mut self, l: usize, r: usize, f: u64) {
        for i in l..r {
            self.data[i] = self.data[i].wrapping_add(f);
        }
    }

    fn set(&mut self, p: usize, x: u64) {
        self.data[p] = x;
    }

    fn max_right<P: Fn(&SumCount) -> bool>(&self, l: usize, pred: P) -> usize {
        let mut m = l;
        while m < self.data.len() && pred(&self.prod(l, m + 1)) {
            m += 1;
        }
        m
    }

    fn min_left<P: Fn(&SumCount) -> bool>(&self, r: usize, pred: P) -> usize {
        let mut m = r;
        while m > 0 && pred(&self.prod(m - 1, r)) {
            m -= 1;
        }
        m
    }
}

/// A small deterministic pseudo-random sequence for exercising the tree.
struct Lcg(u64);

impl Lcg {
    fn next(&mut self) -> u64 {
        self.0 = self
            .0
            .wrapping_mul(6364136223846793005)
            .wrapping_add(1442695040888963407);
        self.0 >> 33
    }
}

#[test]
fn it_works() {
    assert_eq!(2 + 2, 4);
}

#[test]
fn round_trip() {
    let values = [7u64, 0, 3, 3, 99, 12, 5];
    let mut t = build(&values);
    for (i, &x) in values.iter().enumerate() {
        assert_eq!(t.get(i), single(x));
    }
}

#[test]
fn new_tree_is_all_identity() {
    let mut t: Tree = Tree::new(6);
    assert_eq!(t.len(), 6);
    for i in 0..6 {
        assert_eq!(t.get(i), SumCount { sum: 0, count: 0 });
    }
    assert_eq!(t.all_prod(), SumCount { sum: 0, count: 0 });
}

#[test]
fn concrete_scenario() {
    let mut t = build(&[1, 2, 3, 4, 5]);
    assert_eq!(t.len(), 5);
    assert_eq!(t.prod(0, 5).sum, 15);
    t.apply_range(1, 3, 10);
    assert_eq!(t.prod(0, 5).sum, 35);
    assert_eq!(t.get(1).sum, 12);
    assert_eq!(t.get(2).sum, 13);
    assert_eq!(t.get(0).sum, 1);
    // prefix sums after the update: 1, 13, 26, ...; the last prefix with
    // sum at most 20 ends at index 2.
    assert_eq!(t.max_right(0, |s: &SumCount| s.sum <= 20), 2);
}

#[test]
fn empty_range_prod_is_identity() {
    let mut t = build(&[4, 4, 4]);
    assert_eq!(t.prod(2, 2), SumCount { sum: 0, count: 0 });
    assert_eq!(t.prod(0, 0), SumCount { sum: 0, count: 0 });
}

#[test]
fn set_overwrites_element() {
    let mut t = build(&[1, 2, 3, 4]);
    t.set(2, single(30));
    assert_eq!(t.get(2), single(30));
    assert_eq!(t.prod(0, 4).sum, 37);
    assert_eq!(t.all_prod().sum, 37);
}

#[test]
fn point_apply_changes_one_element() {
    let mut t = build(&[5, 5, 5]);
    t.apply(1, 7);
    assert_eq!(t.get(0).sum, 5);
    assert_eq!(t.get(1).sum, 12);
    assert_eq!(t.get(2).sum, 5);
}

#[test]
fn aggregate_matches_naive_after_mixed_operations() {
    let n = 41;
    let mut start: Vec<u64> = Vec::new();
    let mut rng = Lcg(12345);
    for _ in 0..n {
        start.push(rng.next() % 1000);
    }
    let mut t = build(&start);
    let mut naive = Naive::from(&start);
    for step in 0..200 {
        let a = (rng.next() as usize) % (n + 1);
        let b = (rng.next() as usize) % (n + 1);
        let (l, r) = if a <= b { (a, b) } else { (b, a) };
        match step % 3 {
            0 => {
                let f = rng.next() % 1000;
                t.apply_range(l, r, f);
                naive.apply_range(l, r, f);
            }
            1 => {
                let p = (rng.next() as usize) % n;
                let x = rng.next() % 1000;
                t.set(p, single(x));
                naive.set(p, x);
            }
            _ => {
                assert_eq!(t.prod(l, r), naive.prod(l, r));
            }
        }
    }
    for l in 0..=n {
        for r in l..=n {
            assert_eq!(t.prod(l, r), naive.prod(l, r));
        }
    }
    assert_eq!(t.all_prod(), naive.prod(0, n));
}

#[test]
fn update_equivalence() {
    // applying an operator to a range and then aggregating it equals
    // applying the operator to the previous aggregate.
    let mut t = build(&[3, 1, 4, 1, 5, 9, 2, 6]);
    let before = t.prod(2, 7);
    t.apply_range(2, 7, 11);
    let after = t.prod(2, 7);
    let expected = SumCount {
        sum: before.sum.wrapping_add(11u64.wrapping_mul(before.count)),
        count: before.count,
    };
    assert_eq!(after, expected);
}

#[test]
fn identity_operator_changes_nothing() {
    let values = [9u64, 8, 7, 6, 5, 4];
    let mut t = build(&values);
    t.apply_range(1, 5, 3);
    let mut snapshots = Vec::new();
    for l in 0..=values.len() {
        for r in l..=values.len() {
            snapshots.push(t.prod(l, r));
        }
    }
    t.apply_range(0, values.len(), 0);
    let mut idx = 0;
    for l in 0..=values.len() {
        for r in l..=values.len() {
            assert_eq!(t.prod(l, r), snapshots[idx]);
            idx += 1;
        }
    }
}

#[test]
fn max_right_matches_naive() {
    let values = [2u64, 0, 3, 5, 1, 1, 8, 2, 4];
    let mut t = build(&values);
    let naive = Naive::from(&values);
    for limit in [0u64, 1, 2, 5, 9, 11, 25, 1000] {
        for l in 0..=values.len() {
            let pred = |s: &SumCount| s.sum <= limit;
            assert_eq!(t.max_right(l, pred), naive.max_right(l, pred));
        }
    }
}

#[test]
fn min_left_matches_naive() {
    let values = [2u64, 0, 3, 5, 1, 1, 8, 2, 4];
    let mut t = build(&values);
    let naive = Naive::from(&values);
    for limit in [0u64, 1, 2, 5, 9, 11, 25, 1000] {
        for r in 0..=values.len() {
            let pred = |s: &SumCount| s.sum <= limit;
            assert_eq!(t.min_left(r, pred), naive.min_left(r, pred));
        }
    }
}

#[test]
fn max_right_full_and_empty() {
    let mut t = build(&[1, 1, 1]);
    // always true: runs to the end
    assert_eq!(t.max_right(0, |_s: &SumCount| true), 3);
    assert_eq!(t.max_right(3, |_s: &SumCount| true), 3);
    // true only on the identity: stays at the start
    assert_eq!(t.max_right(0, |s: &SumCount| s.count == 0), 0);
    assert_eq!(t.min_left(3, |_s: &SumCount| true), 0);
    assert_eq!(t.min_left(0, |_s: &SumCount| true), 0);
    assert_eq!(t.min_left(3, |s: &SumCount| s.count == 0), 3);
}

#[test]
fn wrapping_sums_match_reference() {
    let values = [u64::MAX, u64::MAX - 1, 5];
    let mut t = build(&values);
    let naive = Naive::from(&values);
    for l in 0..=3 {
        for r in l..=3 {
            assert_eq!(t.prod(l, r), naive.prod(l, r));
        }
    }
    t.apply_range(0, 3, u64::MAX);
    let mut naive2 = Naive::from(&values);
    naive2.apply_range(0, 3, u64::MAX);
    for l in 0..=3 {
        for r in l..=3 {
            assert_eq!(t.prod(l, r), naive2.prod(l, r));
        }
    }
}
