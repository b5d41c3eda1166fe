use persistent_lazy_rbtree::LazySum;
use persistent_lazy_rbtree::PersistentLazyRBTree;
use persistent_lazy_rbtree::SumMonoid;

type Tree = PersistentLazyRBTree<LazySum>;

/// A small deterministic pseudo-random generator, so the differential
/// scenarios are reproducible.
struct Lcg(u64);

impl Lcg {
    fn next(&mut self) -> u64 {
        self.0 = self
            .0
            .wrapping_mul(6364136223846793005)
            .wrapping_add(1442695040888963407);
        self.0 >> 33
    }

    fn below(&mut self, bound: usize) -> usize {
        (self.next() as usize) % bound
    }
}

#[test]
fn scenario_empty_and_single_insert() {
    let empty = Tree::new();
    assert_eq!(empty.len(), 0);
    let one = empty.insert(0, SumMonoid(42));
    assert_eq!(one.len(), 1);
    assert_eq!(one.index(0).0, 42);
}

#[test]
fn scenario_sequential_appends() {
    let items: [i64; 5] = [11, 22, 33, 44, 55];
    let mut t = Tree::new();
    for &x in items.iter() {
        t = t.insert(t.len(), SumMonoid(x));
    }
    assert_eq!(t.len(), 5);
    for (i, &x) in items.iter().enumerate() {
        assert_eq!(t.index(i).0, x);
    }
}

#[test]
fn scenario_random_differential() {
    let mut rng = Lcg(0xfeed5eed);
    let mut vec: Vec<i64> = Vec::new();
    let mut t = Tree::new();
    // Grow to 1000 elements with interleaved random inserts and erases,
    // mirroring every step on a plain array and comparing a random index.
    while vec.len() < 1000 {
        let x = rng.next() as i64 % 1000;
        let i = rng.below(vec.len() + 1);
        vec.insert(i, x);
        t = t.insert(i, SumMonoid(x));

        if vec.len() > 1 && rng.below(4) == 0 {
            let j = rng.below(vec.len());
            vec.remove(j);
            t = t.erase(j);
        }

        let k = rng.below(vec.len());
        assert_eq!(vec[k], t.index(k).0);
        assert_eq!(vec.len(), t.len());
    }
}

#[test]
fn scenario_random_range_folds() {
    let mut rng = Lcg(0xdead10cc);
    let mut vec: Vec<i64> = Vec::new();
    let mut t = Tree::new();
    while vec.len() < 1000 {
        let x = rng.next() as i64 % 1000;
        let i = rng.below(vec.len() + 1);
        vec.insert(i, x);
        t = t.insert(i, SumMonoid(x));
        if vec.len() > 1 && rng.below(4) == 0 {
            let j = rng.below(vec.len());
            vec.remove(j);
            t = t.erase(j);
        }
    }
    for _ in 0..100 {
        let l = rng.below(vec.len());
        let r = l + rng.below(vec.len() - l + 1);
        let expected: i64 = vec[l..r].iter().sum();
        assert_eq!(expected, t.fold(l..r).0);
    }
}

#[test]
fn scenario_build_from_sequence() {
    let items: Vec<i64> = (1..=26).collect();
    let elems: Vec<SumMonoid> = items.iter().map(|&x| SumMonoid(x)).collect();
    let t = Tree::from_vec(elems);
    assert_eq!(t.len(), 26);
    for (i, &x) in items.iter().enumerate() {
        assert_eq!(t.index(i).0, x);
    }
}

#[test]
fn persistence_originals_unchanged() {
    let mut base = Tree::new();
    for x in [1i64, 2, 3, 4] {
        base = base.insert(base.len(), SumMonoid(x));
    }
    let with_insert = base.insert(2, SumMonoid(99));
    let with_erase = base.erase(0);
    let (left, right) = base.split(2);
    let merged = Tree::merge(&with_erase, &with_insert);

    // The original is untouched by any of the derived versions.
    assert_eq!(base.len(), 4);
    for (i, x) in [1i64, 2, 3, 4].iter().enumerate() {
        assert_eq!(base.index(i).0, *x);
    }
    assert_eq!(base.fold(0..4).0, 10);

    assert_eq!(with_insert.len(), 5);
    assert_eq!(with_insert.index(2).0, 99);
    assert_eq!(with_erase.len(), 3);
    assert_eq!(with_erase.index(0).0, 2);
    assert_eq!(left.len(), 2);
    assert_eq!(right.len(), 2);
    assert_eq!(left.index(1).0, 2);
    assert_eq!(right.index(0).0, 3);
    assert_eq!(merged.len(), 8);
    assert_eq!(merged.index(3).0, 1);
}

#[test]
fn split_boundaries_and_empty_merge() {
    let t = Tree::from_vec(vec![SumMonoid(7), SumMonoid(8), SumMonoid(9)]);
    let (a, b) = t.split(0);
    assert_eq!(a.len(), 0);
    assert_eq!(b.len(), 3);
    let (c, d) = t.split(3);
    assert_eq!(c.len(), 3);
    assert_eq!(d.len(), 0);
    let m = Tree::merge(&a, &t);
    assert_eq!(m.len(), 3);
    assert_eq!(m.index(2).0, 9);
    let m2 = Tree::merge(&t, &d);
    assert_eq!(m2.len(), 3);
    let empty = Tree::new();
    let m3 = Tree::merge(&empty, &empty);
    assert_eq!(m3.len(), 0);
}

#[test]
fn split_then_merge_is_identity() {
    let t = Tree::from_vec((0..50).map(SumMonoid).collect());
    for i in 0..=50 {
        let (a, b) = t.split(i);
        let joined = Tree::merge(&a, &b);
        assert_eq!(joined.len(), 50);
        for j in 0..50 {
            assert_eq!(joined.index(j).0, j as i64);
        }
    }
}

#[test]
fn erase_after_insert_is_identity() {
    let t = Tree::from_vec(vec![SumMonoid(5), SumMonoid(6), SumMonoid(7)]);
    for i in 0..=3 {
        let back = t.insert(i, SumMonoid(-1)).erase(i);
        assert_eq!(back.len(), 3);
        assert_eq!(back.index(0).0, 5);
        assert_eq!(back.index(1).0, 6);
        assert_eq!(back.index(2).0, 7);
    }
}

#[test]
fn fold_exact_values() {
    let t = Tree::from_vec((1..=5).map(SumMonoid).collect());
    assert_eq!(t.fold(0..5).0, 15);
    assert_eq!(t.fold(1..4).0, 9);
    assert_eq!(t.fold(2..2).0, 0);
    assert_eq!(t.fold(0..0).0, 0);
    let empty = Tree::new();
    assert_eq!(empty.fold(0..0).0, 0);
}

#[test]
fn fold_wraps_like_the_monoid() {
    let t = Tree::from_vec(vec![SumMonoid(i64::MAX), SumMonoid(1)]);
    assert_eq!(t.fold(0..2).0, i64::MIN);
    assert_eq!(t.fold(0..1).0, i64::MAX);
}

#[test]
fn erase_down_to_empty() {
    let mut t = Tree::from_vec(vec![SumMonoid(1), SumMonoid(2), SumMonoid(3)]);
    t = t.erase(1);
    assert_eq!(t.len(), 2);
    assert_eq!(t.index(0).0, 1);
    assert_eq!(t.index(1).0, 3);
    t = t.erase(1);
    t = t.erase(0);
    assert_eq!(t.len(), 0);
}

#[test]
fn from_vec_empty() {
    let t = Tree::from_vec(Vec::new());
    assert_eq!(t.len(), 0);
}

#[test]
fn iteration_both_directions() {
    let t = Tree::from_vec((10..20).map(SumMonoid).collect());
    let mut it = t.iter();
    let mut forward = Vec::new();
    while let Some(v) = it.next() {
        forward.push(v.0);
    }
    assert_eq!(forward, (10..20).collect::<Vec<i64>>());

    let mut it = t.iter();
    let mut backward = Vec::new();
    while let Some(v) = it.next_back() {
        backward.push(v.0);
    }
    let mut expected: Vec<i64> = (10..20).collect();
    expected.reverse();
    assert_eq!(backward, expected);

    // Both ends shrink the same window.
    let mut it = t.iter();
    assert_eq!(it.next().unwrap().0, 10);
    assert_eq!(it.next_back().unwrap().0, 19);
    assert_eq!(it.next().unwrap().0, 11);
    assert_eq!(it.next_back().unwrap().0, 18);
    let mut count = 0;
    while it.next().is_some() {
        count += 1;
    }
    assert_eq!(count, 6);
    assert!(it.next_back().is_none());
}
