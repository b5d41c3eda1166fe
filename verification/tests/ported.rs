use persistent_lazy_rbtree::LazySum;
use persistent_lazy_rbtree::PersistentLazyRBTree;
use persistent_lazy_rbtree::SumMonoid;
use rand::Rng;

#[test]
fn it_works() {
    let mut rng = rand::thread_rng();
    let mut vec = Vec::new();
    let mut rbtree: PersistentLazyRBTree<LazySum> = PersistentLazyRBTree::new();
    let n = 100000;
    let m = 100;
    for _ in 0..n {
        let x: i64 = rng.gen_range(0..m);
        vec.push(x);
        rbtree = rbtree.insert(rbtree.len(), SumMonoid(x));
    }
    let q = 100000;
    for _ in 0..q {
        let x: i64 = rng.gen_range(0..m);
        let i = rng.gen_range(0..vec.len() + 1);
        vec.insert(i, x);
        rbtree = rbtree.insert(i, SumMonoid(x));

        let i = rng.gen_range(0..vec.len());
        vec.remove(i);
        rbtree = rbtree.erase(i);

        let i = rng.gen_range(0..vec.len());
        assert_eq!(vec[i], rbtree.index(i).0);

        let l = rng.gen_range(0..vec.len());
        let r = rng.gen_range(l..vec.len() + 1);
        assert_eq!(
            vec.get(l..r).unwrap().iter().fold(0, |sum, i| sum + i),
            rbtree.fold(l..r).0
        );
    }
}

#[test]
fn lib_it_works() {
    let mut rng = rand::thread_rng();
    let mut vec = Vec::new();
    let mut rbtree: PersistentLazyRBTree<LazySum> = PersistentLazyRBTree::new();
    let n = 100000;
    for _ in 0..n {
        let x: i64 = rng.gen();
        vec.push(x);
        rbtree = rbtree.insert(rbtree.len(), SumMonoid(x));
    }
    let q = 100000;
    for _ in 0..q {
        let x: i64 = rng.gen();
        let i = rng.gen_range(0..vec.len() + 1);
        vec.insert(i, x);
        rbtree = rbtree.insert(i, SumMonoid(x));

        let i = rng.gen_range(0..vec.len());
        vec.remove(i);
        rbtree = rbtree.erase(i);

        let i = rng.gen_range(0..vec.len());
        assert_eq!(vec[i], rbtree.index(i).0);
    }
}
