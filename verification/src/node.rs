//! The tree representation: a leaf holds one element, an internal node holds
//! the cached aggregate of its subtree, a pending (inert) mapping, a color
//! tag, a balance rank, a subtree size and two shared, immutable children.
//!
//! The rank of a node stands in for red-black black-height: for every
//! internal node `rank == left.rank + (1 if left is black else 0)`, and the
//! same count through the right child, so both children present the same
//! black-height to their parent. Merge is the only place this invariant is
//! restored; split normalizes its outputs to black-rooted trees.

use std::rc::Rc;

use vstd::prelude::*;

use crate::algebra::monoid_fold;
use crate::algebra::lemma_monoid_fold_concat;
use crate::algebra::lemma_monoid_fold_singleton;
use crate::algebra::LazyParam;
use crate::algebra::Magma;
use crate::algebra::Monoid;

verus! {

#[derive(Clone, Copy, Debug)]
pub(crate) enum Color {
    Red,
    Black,
}

#[verifier::reject_recursive_types(T)]
pub(crate) enum Node<T: LazyParam> {
    Leaf {
        val: T::Element,
    },
    Tree {
        val: T::Element,
        lazy: T::Mapping,
        color: Color,
        rank: usize,
        len: usize,
        left: Rc<Node<T>>,
        right: Rc<Node<T>>,
    },
}

impl<T: LazyParam> Node<T> {
    /// The sequence of elements stored at the leaves, left to right.
    pub(crate) open spec fn seq(&self) -> Seq<T::Element>
        decreases self,
    {
        match self {
            Node::Leaf { val } => seq![*val],
            Node::Tree { left, right, .. } => left.seq() + right.seq(),
        }
    }

    pub(crate) open spec fn is_internal(&self) -> bool {
        !(self is Leaf)
    }

    pub(crate) open spec fn color_spec(&self) -> Color {
        match self {
            Node::Leaf { .. } => Color::Black,
            Node::Tree { color, .. } => *color,
        }
    }

    pub(crate) open spec fn is_black(&self) -> bool {
        self.color_spec() is Black
    }

    pub(crate) open spec fn rank_spec(&self) -> int {
        match self {
            Node::Leaf { .. } => 0,
            Node::Tree { rank, .. } => rank as int,
        }
    }

    pub(crate) open spec fn len_spec(&self) -> int {
        match self {
            Node::Leaf { .. } => 1,
            Node::Tree { len, .. } => len as int,
        }
    }

    pub(crate) open spec fn val_spec(&self) -> T::Element {
        match self {
            Node::Leaf { val } => *val,
            Node::Tree { val, .. } => *val,
        }
    }

    pub(crate) open spec fn left_spec(&self) -> Rc<Node<T>>
        recommends
            self.is_internal(),
    {
        match self {
            Node::Leaf { .. } => vstd::pervasive::arbitrary(),
            Node::Tree { left, .. } => *left,
        }
    }

    pub(crate) open spec fn right_spec(&self) -> Rc<Node<T>>
        recommends
            self.is_internal(),
    {
        match self {
            Node::Leaf { .. } => vstd::pervasive::arbitrary(),
            Node::Tree { right, .. } => *right,
        }
    }

    /// The black-height this node presents to a parent: its rank, plus one
    /// if the node itself is black (leaves are black).
    pub(crate) open spec fn bh(&self) -> int {
        self.rank_spec() + if self.is_black() {
            1int
        } else {
            0int
        }
    }

    /// Well-formedness: the balance and size invariants, at every node.
    /// `rank` equals the black-height presented by either child (so the two
    /// agree), `len` is the sum of the children's sizes, the cached
    /// aggregate combines the children's aggregates, the pending mapping is
    /// neutral, and a red node has black children.
    pub(crate) open spec fn wf(&self) -> bool
        decreases self,
    {
        match self {
            Node::Leaf { .. } => true,
            Node::Tree { val, lazy, color, rank, len, left, right } => {
                &&& left.wf()
                &&& right.wf()
                &&& rank as int == left.bh()
                &&& rank as int == right.bh()
                &&& len as int == left.len_spec() + right.len_spec()
                &&& val == <T::Element as Magma>::combine_spec(left.val_spec(), right.val_spec())
                &&& lazy == <T::Mapping as Monoid>::zero_spec()
                &&& (color is Red ==> left.is_black() && right.is_black())
            },
        }
    }

    /// A red node whose left child is red: the one local violation merge may
    /// hand back while recursing up the right spine of the taller tree.
    /// Everything else about the node is consistent, and both children are
    /// themselves well-formed.
    pub(crate) open spec fn lvio(&self) -> bool {
        match self {
            Node::Leaf { .. } => false,
            Node::Tree { val, lazy, color, rank, len, left, right } => {
                &&& color is Red
                &&& !left.is_black()
                &&& right.is_black()
                &&& left.wf()
                &&& right.wf()
                &&& rank as int == left.bh()
                &&& rank as int == right.bh()
                &&& len as int == left.len_spec() + right.len_spec()
                &&& val == <T::Element as Magma>::combine_spec(left.val_spec(), right.val_spec())
                &&& lazy == <T::Mapping as Monoid>::zero_spec()
            },
        }
    }

    /// The mirror image of `lvio`: a red node whose right child is red.
    pub(crate) open spec fn rvio(&self) -> bool {
        match self {
            Node::Leaf { .. } => false,
            Node::Tree { val, lazy, color, rank, len, left, right } => {
                &&& color is Red
                &&& left.is_black()
                &&& !right.is_black()
                &&& left.wf()
                &&& right.wf()
                &&& rank as int == left.bh()
                &&& rank as int == right.bh()
                &&& len as int == left.len_spec() + right.len_spec()
                &&& val == <T::Element as Magma>::combine_spec(left.val_spec(), right.val_spec())
                &&& lazy == <T::Mapping as Monoid>::zero_spec()
            },
        }
    }

    /// Every subtree holds at least one element.
    pub(crate) proof fn lemma_seq_pos(&self)
        ensures
            self.seq().len() >= 1,
        decreases self,
    {
        match self {
            Node::Leaf { .. } => {},
            Node::Tree { left, right, .. } => {
                left.lemma_seq_pos();
                right.lemma_seq_pos();
            },
        }
    }

    /// In a well-formed subtree the cached size is the number of elements,
    /// and the rank is strictly below it.
    pub(crate) proof fn lemma_wf_len(&self)
        requires
            self.wf(),
        ensures
            self.len_spec() == self.seq().len(),
            0 <= self.rank_spec() < self.len_spec(),
        decreases self,
    {
        match self {
            Node::Leaf { .. } => {},
            Node::Tree { left, right, .. } => {
                left.lemma_wf_len();
                right.lemma_wf_len();
            },
        }
    }

    /// In a well-formed subtree the cached aggregate is the left-to-right
    /// combine of all its elements.
    pub(crate) proof fn lemma_val_mfold(&self)
        requires
            self.wf(),
        ensures
            self.val_spec() == monoid_fold::<T::Element>(self.seq()),
        decreases self,
    {
        match self {
            Node::Leaf { val } => {
                lemma_monoid_fold_singleton::<T::Element>(*val);
            },
            Node::Tree { left, right, .. } => {
                left.lemma_val_mfold();
                right.lemma_val_mfold();
                lemma_monoid_fold_concat::<T::Element>(left.seq(), right.seq());
            },
        }
    }

    /// Builds an internal node over two well-formed children, computing the
    /// aggregate, rank and size from them and setting the pending mapping to
    /// the mapping's neutral value.
    pub(crate) fn new(color: Color, left: Rc<Node<T>>, right: Rc<Node<T>>) -> (n: Self)
        requires
            left.wf(),
            right.wf(),
            left.len_spec() + right.len_spec() <= usize::MAX,
        ensures
            n.is_internal(),
            n.color_spec() == color,
            n.left_spec() == left,
            n.right_spec() == right,
            n.rank_spec() == left.bh(),
            n.len_spec() == left.len_spec() + right.len_spec(),
            n.val_spec() == <T::Element as Magma>::combine_spec(left.val_spec(), right.val_spec()),
            n.seq() == left.seq() + right.seq(),
            (n matches Node::Tree { lazy, .. } ==> lazy == <T::Mapping as Monoid>::zero_spec()),
    {
        proof {
            left.lemma_wf_len();
        }
        let val = <T::Element as Magma>::combine(left.val(), right.val());
        let lazy = <T::Mapping as Monoid>::zero();
        let rank = left.rank() + (match left.color() {
            Color::Black => 1,
            Color::Red => 0,
        });
        let len = left.len() + right.len();
        Node::Tree { val, lazy, color, rank, len, left, right }
    }

    pub(crate) fn val(&self) -> (v: &T::Element)
        ensures
            *v == self.val_spec(),
    {
        match self {
            Node::Leaf { val } => val,
            Node::Tree { val, .. } => val,
        }
    }

    pub(crate) fn color(&self) -> (c: Color)
        ensures
            c == self.color_spec(),
    {
        match self {
            Node::Leaf { .. } => Color::Black,
            Node::Tree { color, .. } => *color,
        }
    }

    pub(crate) fn rank(&self) -> (r: usize)
        ensures
            r as int == self.rank_spec(),
    {
        match self {
            Node::Leaf { .. } => 0,
            Node::Tree { rank, .. } => *rank,
        }
    }

    pub(crate) fn len(&self) -> (r: usize)
        ensures
            r as int == self.len_spec(),
    {
        match self {
            Node::Leaf { .. } => 1,
            Node::Tree { len, .. } => *len,
        }
    }

    pub(crate) fn left(&self) -> (l: &Rc<Node<T>>)
        requires
            self.is_internal(),
        ensures
            *l == self.left_spec(),
    {
        match self {
            Node::Leaf { .. } => vstd::pervasive::unreached(),
            Node::Tree { left, .. } => left,
        }
    }

    pub(crate) fn right(&self) -> (r: &Rc<Node<T>>)
        requires
            self.is_internal(),
        ensures
            *r == self.right_spec(),
    {
        match self {
            Node::Leaf { .. } => vstd::pervasive::unreached(),
            Node::Tree { right, .. } => right,
        }
    }

    /// Positional lookup: descend comparing the index against the size of
    /// the left subtree.
    pub(crate) fn index(&self, i: usize) -> (r: &T::Element)
        requires
            self.wf(),
            (i as int) < self.seq().len(),
        ensures
            *r == self.seq()[i as int],
        decreases self,
    {
        match self {
            Node::Leaf { val } => val,
            Node::Tree { left, right, .. } => {
                proof {
                    left.lemma_wf_len();
                    right.lemma_wf_len();
                }
                let ll = left.len();
                if i < ll {
                    left.index(i)
                } else {
                    right.index(i - ll)
                }
            },
        }
    }

    /// Recolors a red root black (an O(1) rebuild; the rank and contents are
    /// unchanged); returns black-rooted input unchanged. Normalizing a
    /// merge result this way also repairs the one local red-red violation
    /// merge may leave at the root.
    pub(crate) fn to_black(src: &Rc<Node<T>>) -> (r: Rc<Node<T>>)
        requires
            src.wf() || src.lvio() || src.rvio(),
        ensures
            r.wf(),
            r.is_black(),
            r.seq() == src.seq(),
            r.rank_spec() == src.rank_spec(),
            r.len_spec() == src.len_spec(),
            r.val_spec() == src.val_spec(),
    {
        match src.color() {
            Color::Red => {
                let l = src.left();
                let rt = src.right();
                Rc::new(Node::new(Color::Black, l.clone(), rt.clone()))
            },
            Color::Black => src.clone(),
        }
    }

    /// Merges two balanced subtrees into one containing the elements of
    /// `left` followed by those of `right`, recursing along the facing spine
    /// of the taller tree and rebalancing with a fixed table of local
    /// recolorings. The input of smaller or equal rank must be black-rooted;
    /// the result presents the black-height of the taller input and is
    /// well-formed up to possibly one red-red violation at its root (facing
    /// the side that was descended), which `to_black` repairs.
    pub(crate) fn merge(left: &Rc<Node<T>>, right: &Rc<Node<T>>) -> (m: Rc<Node<T>>)
        requires
            left.wf(),
            right.wf(),
            left.len_spec() + right.len_spec() <= usize::MAX,
            left.rank_spec() <= right.rank_spec() ==> left.is_black(),
            right.rank_spec() <= left.rank_spec() ==> right.is_black(),
        ensures
            m.is_internal(),
            m.seq() == left.seq() + right.seq(),
            m.len_spec() == left.len_spec() + right.len_spec(),
            left.rank_spec() == right.rank_spec() ==> m.wf() && m.bh() == left.bh(),
            left.rank_spec() < right.rank_spec() ==> {
                &&& m.wf() || m.lvio()
                &&& m.bh() == right.bh()
                &&& (right.is_black() ==> m.wf())
            },
            left.rank_spec() > right.rank_spec() ==> {
                &&& m.wf() || m.rvio()
                &&& m.bh() == left.bh()
                &&& (left.is_black() ==> m.wf())
            },
        decreases left.seq().len() + right.seq().len(),
    {
        let lrank = left.rank();
        let rrank = right.rank();
        if lrank < rrank {
            proof {
                left.lemma_wf_len();
                right.lemma_wf_len();
                right.left_spec().lemma_wf_len();
                right.right_spec().lemma_seq_pos();
                right.right_spec().lemma_wf_len();
            }
            let m0 = Node::merge(left, right.left());
            proof {
                if left.rank_spec() == right.left_spec().rank_spec() {
                    assert(right.left_spec().is_black());
                }
                assert(m0.bh() == right.rank_spec());
                assert(right.color_spec() is Red ==> m0.wf());
            }
            match (m0.color(), m0.left().color(), right.color()) {
                (Color::Red, Color::Red, Color::Black) => {
                    proof {
                        assert(m0.lvio());
                    }
                    match right.right().color() {
                        Color::Black => {
                            let inner = Rc::new(
                                Node::new(Color::Red, m0.right().clone(), right.right().clone()),
                            );
                            let res = Rc::new(Node::new(Color::Black, m0.left().clone(), inner));
                            proof {
                                assert(inner.wf());
                                assert(res.wf());
                                assert(res.bh() == right.bh());
                                assert(m0.seq() == m0.left_spec().seq() + m0.right_spec().seq());
                                assert(right.seq() == right.left_spec().seq()
                                    + right.right_spec().seq());
                                assert(m0.left_spec().seq() + (m0.right_spec().seq()
                                    + right.right_spec().seq()) =~= m0.seq()
                                    + right.right_spec().seq());
                                assert(m0.seq() + right.right_spec().seq() =~= left.seq()
                                    + right.seq());
                                assert(res.seq() == left.seq() + right.seq());
                            }
                            res
                        },
                        Color::Red => {
                            proof {
                                let rr = right.right_spec();
                                assert(rr.is_internal());
                                assert(rr.wf());
                                assert(rr.left_spec().wf());
                                assert(rr.right_spec().wf());
                                rr.left_spec().lemma_wf_len();
                                rr.right_spec().lemma_wf_len();
                            }
                            let a = Rc::new(
                                Node::new(Color::Black, m0.left().clone(), m0.right().clone()),
                            );
                            let b = Rc::new(
                                Node::new(
                                    Color::Black,
                                    right.right().left().clone(),
                                    right.right().right().clone(),
                                ),
                            );
                            let res = Rc::new(Node::new(Color::Red, a, b));
                            proof {
                                assert(a.wf());
                                assert(b.wf());
                                assert(res.wf());
                                assert(res.bh() == right.bh());
                                assert(res.seq() =~= left.seq() + right.seq());
                            }
                            res
                        },
                    }
                },
                _ => {
                    proof {
                        assert(m0.wf());
                    }
                    let res = Rc::new(Node::new(right.color(), m0, right.right().clone()));
                    proof {
                        assert(right.color_spec() is Red ==> right.right_spec().is_black());
                        assert(res.wf() || res.lvio());
                        assert(right.is_black() ==> res.wf());
                        assert(res.bh() == right.bh());
                        assert(res.seq() =~= left.seq() + right.seq());
                    }
                    res
                },
            }
        } else if lrank > rrank {
            proof {
                left.lemma_wf_len();
                right.lemma_wf_len();
                left.right_spec().lemma_wf_len();
                left.left_spec().lemma_seq_pos();
                left.left_spec().lemma_wf_len();
            }
            let m0 = Node::merge(left.right(), right);
            proof {
                if left.right_spec().rank_spec() == right.rank_spec() {
                    assert(left.right_spec().is_black());
                }
                assert(m0.bh() == left.rank_spec());
                assert(left.color_spec() is Red ==> m0.wf());
            }
            match (left.color(), m0.right().color(), m0.color()) {
                (Color::Black, Color::Red, Color::Red) => {
                    proof {
                        assert(m0.rvio());
                    }
                    match left.left().color() {
                        Color::Black => {
                            let inner = Rc::new(
                                Node::new(Color::Red, left.left().clone(), m0.left().clone()),
                            );
                            let res = Rc::new(Node::new(Color::Black, inner, m0.right().clone()));
                            proof {
                                assert(inner.wf());
                                assert(res.wf());
                                assert(res.bh() == left.bh());
                                assert(m0.seq() == m0.left_spec().seq() + m0.right_spec().seq());
                                assert(left.seq() == left.left_spec().seq()
                                    + left.right_spec().seq());
                                assert((left.left_spec().seq() + m0.left_spec().seq())
                                    + m0.right_spec().seq() =~= left.left_spec().seq() + m0.seq());
                                assert(left.left_spec().seq() + m0.seq() =~= left.seq()
                                    + right.seq());
                                assert(res.seq() == left.seq() + right.seq());
                            }
                            res
                        },
                        Color::Red => {
                            proof {
                                let ll = left.left_spec();
                                assert(ll.is_internal());
                                assert(ll.wf());
                                assert(ll.left_spec().wf());
                                assert(ll.right_spec().wf());
                                ll.left_spec().lemma_wf_len();
                                ll.right_spec().lemma_wf_len();
                            }
                            let a = Rc::new(
                                Node::new(
                                    Color::Black,
                                    left.left().left().clone(),
                                    left.left().right().clone(),
                                ),
                            );
                            let b = Rc::new(
                                Node::new(Color::Black, m0.left().clone(), m0.right().clone()),
                            );
                            let res = Rc::new(Node::new(Color::Red, a, b));
                            proof {
                                assert(a.wf());
                                assert(b.wf());
                                assert(res.wf());
                                assert(res.bh() == left.bh());
                                assert(res.seq() =~= left.seq() + right.seq());
                            }
                            res
                        },
                    }
                },
                _ => {
                    proof {
                        assert(m0.wf());
                    }
                    let res = Rc::new(Node::new(left.color(), left.left().clone(), m0));
                    proof {
                        assert(left.color_spec() is Red ==> left.left_spec().is_black());
                        assert(res.wf() || res.rvio());
                        assert(left.is_black() ==> res.wf());
                        assert(res.bh() == left.bh());
                        assert(res.seq() =~= left.seq() + right.seq());
                    }
                    res
                },
            }
        } else {
            Rc::new(Node::new(Color::Red, left.clone(), right.clone()))
        }
    }

    /// Splits a subtree at a position strictly inside it, producing the
    /// prefix and suffix as black-rooted, well-formed trees. Partial
    /// results along the recursion path are reassembled with `merge`; the
    /// untouched sibling is normalized to black first so that both merge
    /// inputs are black-rooted.
    pub(crate) fn split(tree: &Rc<Node<T>>, index: usize) -> (r: (Rc<Node<T>>, Rc<Node<T>>))
        requires
            tree.wf(),
            0 < index,
            (index as int) < tree.len_spec(),
        ensures
            r.0.wf(),
            r.1.wf(),
            r.0.is_black(),
            r.1.is_black(),
            r.0.seq() == tree.seq().take(index as int),
            r.1.seq() == tree.seq().skip(index as int),
        decreases tree.seq().len(),
    {
        proof {
            tree.lemma_wf_len();
        }
        match &**tree {
            Node::Tree { left, right, .. } => {
                proof {
                    left.lemma_wf_len();
                    right.lemma_wf_len();
                }
                let llen = left.len();
                if index < llen {
                    let (a, b) = Node::split(left, index);
                    let sib = Node::to_black(right);
                    proof {
                        b.lemma_wf_len();
                        sib.lemma_wf_len();
                    }
                    let m = Node::merge(&b, &sib);
                    let suffix = Node::to_black(&m);
                    proof {
                        assert(left.seq().take(index as int) =~= tree.seq().take(index as int));
                        assert(left.seq().skip(index as int) + right.seq() =~= tree.seq().skip(
                            index as int,
                        ));
                    }
                    (a, suffix)
                } else if index > llen {
                    let (a, b) = Node::split(right, index - llen);
                    let sib = Node::to_black(left);
                    proof {
                        a.lemma_wf_len();
                        sib.lemma_wf_len();
                    }
                    let m = Node::merge(&sib, &a);
                    let prefix = Node::to_black(&m);
                    proof {
                        assert(left.seq() + right.seq().take(index - llen) =~= tree.seq().take(
                            index as int,
                        ));
                        assert(right.seq().skip(index - llen) =~= tree.seq().skip(index as int));
                    }
                    (prefix, b)
                } else {
                    let a = Node::to_black(left);
                    let b = Node::to_black(right);
                    proof {
                        assert(left.seq() =~= tree.seq().take(index as int));
                        assert(right.seq() =~= tree.seq().skip(index as int));
                    }
                    (a, b)
                }
            },
            Node::Leaf { .. } => vstd::pervasive::unreached(),
        }
    }
}

} // verus!
