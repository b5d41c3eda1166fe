//! The persistent sequence facade: a container wrapping an optional shared
//! root (absent root = empty sequence). Every operation that looks mutating
//! returns a new value and leaves the receiver untouched, so every
//! previously obtained value stays valid; versions share unchanged subtrees.

use std::ops::Range;
use std::rc::Rc;

use vstd::prelude::*;

use crate::algebra::monoid_fold;
use crate::algebra::LazyParam;
use crate::algebra::Magma;
use crate::algebra::Monoid;
use crate::node::Node;

verus! {

/// A persistent, order-indexed sequence with logarithmic split, merge,
/// positional insert/erase and indexing, and O(1)-after-split range folds
/// under the element monoid.
///
/// Viewed as the sequence of its elements (`self@`). Every value of this
/// type carries the tree's balance and size invariants: the root, when
/// present, is a black, well-formed rank-balanced red-black tree.
#[verifier::reject_recursive_types(T)]
pub struct PersistentLazyRBTree<T: LazyParam> {
    root: Option<Rc<Node<T>>>,
}

#[verifier::reject_recursive_types(T)]
pub struct Iter<'a, T: LazyParam> {
    begin: usize,
    end: usize,
    tree: &'a PersistentLazyRBTree<T>,
}

impl<T: LazyParam> View for PersistentLazyRBTree<T> {
    type V = Seq<T::Element>;

    closed spec fn view(&self) -> Seq<T::Element> {
        match self.root {
            None => Seq::empty(),
            Some(n) => n.seq(),
        }
    }
}

impl<T: LazyParam> PersistentLazyRBTree<T> {
    /// The balance and size invariants, checked by the verifier at every
    /// point a value of this type is produced: a present root is a
    /// well-formed, black-rooted tree.
    #[verifier::type_invariant]
    spec fn inv(self) -> bool {
        match self.root {
            None => true,
            Some(n) => n.wf() && n.is_black(),
        }
    }

    fn from(root: Rc<Node<T>>) -> (r: Self)
        requires
            root.wf(),
            root.is_black(),
        ensures
            r@ == root.seq(),
    {
        Self { root: Some(root) }
    }

    /// The empty sequence.
    pub fn new() -> (r: Self)
        ensures
            r@ == Seq::<T::Element>::empty(),
    {
        Self { root: None }
    }

    /// The number of elements. O(1): the root caches its subtree size.
    pub fn len(&self) -> (n: usize)
        ensures
            n == self@.len(),
    {
        proof {
            use_type_invariant(self);
            match &self.root {
                Some(node) => node.lemma_wf_len(),
                None => {},
            }
        }
        match &self.root {
            None => 0,
            Some(node) => node.len(),
        }
    }

    /// The concatenation of two sequences, leaving both inputs valid. If
    /// either is empty the other is returned unchanged; otherwise the trees
    /// are merged and the result is normalized to a black root.
    pub fn merge(left: &Self, right: &Self) -> (r: Self)
        requires
            left@.len() + right@.len() <= usize::MAX,
        ensures
            r@ == left@ + right@,
    {
        proof {
            use_type_invariant(left);
            use_type_invariant(right);
        }
        match (&left.root, &right.root) {
            (None, _) => {
                proof {
                    assert(left@ + right@ =~= right@);
                }
                right.clone()
            },
            (_, None) => {
                proof {
                    assert(left@ + right@ =~= left@);
                }
                left.clone()
            },
            (Some(a), Some(b)) => {
                proof {
                    a.lemma_wf_len();
                    b.lemma_wf_len();
                }
                let m = Node::merge(a, b);
                Self::from(Node::to_black(&m))
            },
        }
    }

    /// Splits at `index` into the prefix of that length and the rest. The
    /// two boundary positions are answered without touching the tree.
    pub fn split(&self, index: usize) -> (r: (Self, Self))
        requires
            index <= self@.len(),
        ensures
            r.0@ == self@.take(index as int),
            r.1@ == self@.skip(index as int),
    {
        proof {
            use_type_invariant(self);
            match &self.root {
                Some(node) => node.lemma_wf_len(),
                None => {},
            }
        }
        let n = self.len();
        if index == 0 {
            proof {
                assert(self@.take(0) =~= Seq::<T::Element>::empty());
                assert(self@.skip(0) =~= self@);
            }
            (Self::new(), self.clone())
        } else if index == n {
            proof {
                assert(self@.take(n as int) =~= self@);
                assert(self@.skip(n as int) =~= Seq::<T::Element>::empty());
            }
            (self.clone(), Self::new())
        } else {
            let root = self.root.as_ref().unwrap();
            let (a, b) = Node::split(root, index);
            (Self::from(a), Self::from(b))
        }
    }

    /// A new sequence with `val` inserted so that it has position `index`;
    /// the receiver is unchanged.
    pub fn insert(&self, index: usize, val: T::Element) -> (r: Self)
        requires
            index <= self@.len(),
            self@.len() < usize::MAX,
        ensures
            r@ == self@.insert(index as int, val),
    {
        let (a, b) = self.split(index);
        let leaf = Self { root: Some(Rc::new(Node::Leaf { val })) };
        let r = Self::merge(&Self::merge(&a, &leaf), &b);
        proof {
            assert(r@ =~= self@.insert(index as int, val));
        }
        r
    }

    /// A new sequence with the element at position `index` removed; the
    /// receiver is unchanged.
    pub fn erase(&self, index: usize) -> (r: Self)
        requires
            index < self@.len(),
        ensures
            r@ == self@.remove(index as int),
    {
        proof {
            use_type_invariant(self);
            match &self.root {
                Some(node) => node.lemma_wf_len(),
                None => {},
            }
        }
        let (a, b) = self.split(index);
        let (_, c) = b.split(1);
        let r = Self::merge(&a, &c);
        proof {
            assert(r@ =~= self@.remove(index as int));
        }
        r
    }

    /// The element at position `index`. O(log n).
    pub fn index(&self, index: usize) -> (r: &T::Element)
        requires
            index < self@.len(),
        ensures
            *r == self@[index as int],
    {
        proof {
            use_type_invariant(self);
        }
        let root = self.root.as_ref().unwrap();
        root.index(index)
    }

    /// The left-to-right combine of the elements at positions
    /// `range.start..range.end`, the monoid's neutral value for an empty
    /// range. The receiver is unchanged; the result is read off the cached
    /// aggregate of the middle piece of two splits.
    pub fn fold(&self, range: Range<usize>) -> (r: T::Element)
        requires
            range.start <= range.end,
            range.end <= self@.len(),
        ensures
            r == monoid_fold(self@.subrange(range.start as int, range.end as int)),
    {
        let (prefix, _) = self.split(range.end);
        let (_, mid) = prefix.split(range.start);
        proof {
            use_type_invariant(&mid);
            assert(mid@ =~= self@.subrange(range.start as int, range.end as int));
        }
        match &mid.root {
            None => {
                proof {
                    assert(mid@ =~= Seq::<T::Element>::empty());
                }
                <T::Element as Monoid>::zero()
            },
            Some(node) => {
                proof {
                    node.lemma_val_mfold();
                    <T::Element as Monoid>::zero_left(node.val_spec());
                }
                let z = <T::Element as Monoid>::zero();
                <T::Element as Magma>::combine(&z, node.val())
            },
        }
    }

    /// A fresh bidirectional iteration over the whole sequence, by repeated
    /// positional lookup over a shrinking window. The sequence itself is
    /// untouched; each call yields an independent iteration.
    pub fn iter<'a>(&'a self) -> (it: Iter<'a, T>)
        ensures
            it.remaining() == self@,
    {
        let n = self.len();
        let it = Iter { begin: 0, end: n, tree: self };
        proof {
            assert(it.remaining() =~= self@);
        }
        it
    }

    /// Builds the sequence holding exactly `elements`, in order, by
    /// binary-counter-style incremental merging: each element becomes a
    /// one-leaf tree, equal-sized trees on top of a stack are merged as soon
    /// as they appear, and the remaining stack entries are merged pairwise
    /// at the end. Equivalent to inserting every element at the back, but
    /// without the intermediate splits.
    pub fn from_vec(elements: Vec<T::Element>) -> (r: Self)
        ensures
            r@ == elements@,
    {
        let total = elements.len();
        let mut rest = elements;
        let mut stack: Vec<Self> = Vec::new();
        while rest.len() > 0
            invariant
                Self::cat_views(stack@) + rest@ == elements@,
                elements@.len() <= usize::MAX,
            decreases rest@.len(),
        {
            let x = rest.remove(0);
            let mut cur = Self { root: Some(Rc::new(Node::Leaf { val: x })) };
            proof {
                assert(Self::cat_views(stack@) + seq![x] + rest@ =~= elements@);
            }
            while stack.len() >= 1 && stack[stack.len() - 1].len() == cur.len()
                invariant
                    Self::cat_views(stack@) + cur@ + rest@ == elements@,
                    elements@.len() <= usize::MAX,
                decreases stack@.len(),
            {
                let ghost prev = stack@;
                let last = stack.pop().unwrap();
                proof {
                    assert(Self::cat_views(prev) == Self::cat_views(prev.drop_last())
                        + prev.last()@);
                    assert(Self::cat_views(prev).len() + cur@.len() + rest@.len()
                        == elements@.len());
                }
                cur = Self::merge(&last, &cur);
                proof {
                    assert(Self::cat_views(stack@) + cur@ + rest@ =~= elements@);
                }
            }
            let ghost before_push = stack@;
            stack.push(cur);
            proof {
                assert(stack@.drop_last() =~= before_push);
                assert(stack@.last() == cur);
                assert(Self::cat_views(stack@) == Self::cat_views(before_push) + cur@);
                assert(Self::cat_views(stack@) + rest@ =~= elements@);
            }
        }
        proof {
            assert(Self::cat_views(stack@) =~= elements@);
        }
        while stack.len() >= 2
            invariant
                Self::cat_views(stack@) == elements@,
                elements@.len() <= usize::MAX,
            decreases stack@.len(),
        {
            let ghost prev = stack@;
            let b = stack.pop().unwrap();
            let ghost mid = stack@;
            let a = stack.pop().unwrap();
            proof {
                assert(Self::cat_views(prev) == Self::cat_views(mid) + b@);
                assert(Self::cat_views(mid) == Self::cat_views(stack@) + a@);
                assert(Self::cat_views(stack@).len() + a@.len() + b@.len() == elements@.len());
            }
            let m = Self::merge(&a, &b);
            let ghost before_push = stack@;
            stack.push(m);
            proof {
                assert(stack@.drop_last() =~= before_push);
                assert(stack@.last() == m);
                assert(Self::cat_views(stack@) == Self::cat_views(before_push) + m@);
                assert(Self::cat_views(stack@) =~= elements@);
            }
        }
        match stack.pop() {
            Some(r) => {
                proof {
                    assert(Self::cat_views(stack@) + r@ == elements@);
                    assert(stack@.len() == 0);
                    assert(Self::cat_views(stack@) + r@ =~= r@);
                }
                r
            },
            None => {
                proof {
                    assert(elements@ =~= Seq::<T::Element>::empty());
                }
                Self::new()
            },
        }
    }

    /// The concatenation of the views of a stack of sequences, bottom first.
    spec fn cat_views(s: Seq<PersistentLazyRBTree<T>>) -> Seq<T::Element>
        decreases s.len(),
    {
        if s.len() == 0 {
            Seq::empty()
        } else {
            Self::cat_views(s.drop_last()) + s.last()@
        }
    }
}

impl<T: LazyParam> Clone for PersistentLazyRBTree<T> {
    /// A new handle to the same sequence; the tree is shared, not copied.
    fn clone(&self) -> (r: Self)
        ensures
            r == *self,
    {
        proof {
            use_type_invariant(self);
        }
        match &self.root {
            None => Self { root: None },
            Some(node) => Self { root: Some(node.clone()) },
        }
    }
}

impl<'a, T: LazyParam> Iter<'a, T> {
    #[verifier::type_invariant]
    spec fn iter_inv(self) -> bool {
        self.begin <= self.end <= self.tree@.len()
    }

    /// The elements not yet yielded, in order.
    pub closed spec fn remaining(self) -> Seq<T::Element> {
        self.tree@.subrange(self.begin as int, self.end as int)
    }

    /// Yields the front element of the remaining window, shrinking it from
    /// the left; `None` once the window is empty.
    pub fn next(&mut self) -> (r: Option<&'a T::Element>)
        ensures
            old(self).remaining().len() == 0 ==> r is None && final(self).remaining() == old(
                self,
            ).remaining(),
            old(self).remaining().len() > 0 ==> (r matches Some(v) && *v == old(
                self,
            ).remaining()[0] && final(self).remaining() == old(self).remaining().skip(1)),
    {
        proof {
            use_type_invariant(&*self);
        }
        if self.begin < self.end {
            let v = self.tree.index(self.begin);
            self.begin = self.begin + 1;
            proof {
                assert(final(self).remaining() =~= old(self).remaining().skip(1));
            }
            Some(v)
        } else {
            None
        }
    }

    /// Yields the back element of the remaining window, shrinking it from
    /// the right; `None` once the window is empty.
    pub fn next_back(&mut self) -> (r: Option<&'a T::Element>)
        ensures
            old(self).remaining().len() == 0 ==> r is None && final(self).remaining() == old(
                self,
            ).remaining(),
            old(self).remaining().len() > 0 ==> (r matches Some(v) && *v == old(
                self,
            ).remaining().last() && final(self).remaining() == old(self).remaining().drop_last()),
    {
        proof {
            use_type_invariant(&*self);
        }
        if self.begin < self.end {
            let v = self.tree.index(self.end - 1);
            self.end = self.end - 1;
            proof {
                assert(final(self).remaining() =~= old(self).remaining().drop_last());
            }
            Some(v)
        } else {
            None
        }
    }
}

} // verus!
