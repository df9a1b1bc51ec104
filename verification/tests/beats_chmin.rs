use lazy_segtree::beats::{chmin_single, ChminAgg, ChminSum};
use lazy_segtree::LazySegtree;

type BeatsTree = LazySegtree<ChminSum>;

fn build(values: &[u64]) -> BeatsTree {
    let mut v: Vec<ChminAgg> = Vec::new();
    for &x in values {
        v.push(chmin_single(x));
    }
    BeatsTree::from_vec(v)
}

struct Lcg(u64);

impl Lcg {
    fn next(&mut self) -> u64 {
        self.0 = self
            .0
            .wrapping_mul(6364136223846793005)
            .wrapping_add(1442695040888963407);
        self.0 >> 33
    }
}

#[test]
fn chmin_exact_small() {
    let mut t = build(&[5, 3, 8]);
    t.apply_range(0, 3, 4);
    assert_eq!(t.prod(0, 3).sum, 11);
    assert_eq!(t.get(0).sum, 4);
    assert_eq!(t.get(1).sum, 3);
    assert_eq!(t.get(2).sum, 4);
}

#[test]
fn chmin_triggers_repair() {
    // clamping below the second maximum cannot be represented on the
    // aggregate; the tree must repair by pushing down and recombining.
    let mut t = build(&[5, 3]);
    t.apply_range(0, 2, 2);
    assert_eq!(t.prod(0, 2).sum, 4);
    assert_eq!(t.get(0).sum, 2);
    assert_eq!(t.get(1).sum, 2);
    let all = t.all_prod();
    assert_eq!(all.max, Some(2));
    assert_eq!(all.max_count, 2);
    assert_eq!(all.second, None);
    assert_eq!(all.count, 2);
    assert!(!all.failed);
}

#[test]
fn chmin_identity_bound_changes_nothing() {
    let mut t = build(&[9, 1, 7, 7]);
    t.apply_range(0, 4, u64::MAX);
    assert_eq!(t.prod(0, 4).sum, 24);
    let all = t.all_prod();
    assert_eq!(all.max, Some(9));
    assert_eq!(all.second, Some(7));
    assert_eq!(all.max_count, 1);
}

#[test]
fn beats_long_random_matches_brute_force() {
    let n: usize = 10000;
    let mut rng = Lcg(987654321);
    let mut data: Vec<u64> = Vec::new();
    for _ in 0..n {
        data.push(rng.next() % 1_000_000);
    }
    let mut t = build(&data);
    for step in 0..600 {
        let a = (rng.next() as usize) % (n + 1);
        let b = (rng.next() as usize) % (n + 1);
        let (l, r) = if a <= b { (a, b) } else { (b, a) };
        if step % 2 == 0 {
            let w = rng.next() % 1_000_000;
            t.apply_range(l, r, w);
            for i in l..r {
                if data[i] > w {
                    data[i] = w;
                }
            }
        } else {
            let mut sum: u64 = 0;
            for i in l..r {
                sum = sum.wrapping_add(data[i]);
            }
            let p = t.prod(l, r);
            assert_eq!(p.sum, sum);
            assert_eq!(p.count, (r - l) as u64);
        }
    }
    let mut total: u64 = 0;
    let mut maxv: u64 = 0;
    for i in 0..n {
        total = total.wrapping_add(data[i]);
        if data[i] > maxv {
            maxv = data[i];
        }
    }
    let all = t.all_prod();
    assert_eq!(all.sum, total);
    assert_eq!(all.max, Some(maxv));
    assert_eq!(all.count, n as u64);
}
