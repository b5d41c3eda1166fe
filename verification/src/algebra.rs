//! Algebraic parameters of the sequence container: elements and deferred
//! mappings are monoids, i.e. types with an associative combine operator and
//! a neutral value.

use vstd::prelude::*;

verus! {

/// A type with a binary combine operator.
///
/// `combine_spec` is the mathematical meaning of the operator; `combine` is
/// the executable operator and must return exactly that value.
pub trait Magma: Sized {
    spec fn combine_spec(a: Self, b: Self) -> Self;

    fn combine(a: &Self, b: &Self) -> (r: Self)
        ensures
            r == Self::combine_spec(*a, *b),
    ;
}

/// A magma whose combine operator is associative.
pub trait Semigroup: Magma {
    proof fn combine_assoc(a: Self, b: Self, c: Self)
        ensures
            Self::combine_spec(Self::combine_spec(a, b), c) == Self::combine_spec(
                a,
                Self::combine_spec(b, c),
            ),
    ;
}

/// A semigroup with a neutral value.
pub trait Monoid: Semigroup {
    spec fn zero_spec() -> Self;

    fn zero() -> (r: Self)
        ensures
            r == Self::zero_spec(),
    ;

    proof fn zero_left(a: Self)
        ensures
            Self::combine_spec(Self::zero_spec(), a) == a,
    ;

    proof fn zero_right(a: Self)
        ensures
            Self::combine_spec(a, Self::zero_spec()) == a,
    ;
}

/// The pair of algebraic parameters the container is generic over: the
/// element monoid that is aggregated, and a mapping monoid for deferred
/// range updates together with its action on elements.
///
/// The mapping slot is carried by every internal node but is never consulted
/// by the operations of this container: `apply` exists so that the parameter
/// set is complete, and the pending mapping of every node stays at the
/// mapping's neutral value.
pub trait LazyParam {
    type Element: Monoid;

    type Mapping: Monoid;

    fn apply(mapping: Self::Mapping, element: Self::Element) -> Self::Element;
}

/// The left-to-right combine of all elements of `s`, starting from the
/// neutral value.
pub open spec fn monoid_fold<E: Monoid>(s: Seq<E>) -> E
    decreases s.len(),
{
    if s.len() == 0 {
        E::zero_spec()
    } else {
        E::combine_spec(monoid_fold(s.drop_last()), s.last())
    }
}

/// Folding a concatenation combines the folds of the two parts.
pub proof fn lemma_monoid_fold_concat<E: Monoid>(a: Seq<E>, b: Seq<E>)
    ensures
        monoid_fold(a + b) == E::combine_spec(monoid_fold(a), monoid_fold(b)),
    decreases b.len(),
{
    if b.len() == 0 {
        assert(a + b =~= a);
        E::zero_right(monoid_fold(a));
    } else {
        assert((a + b).drop_last() =~= a + b.drop_last());
        lemma_monoid_fold_concat(a, b.drop_last());
        E::combine_assoc(monoid_fold(a), monoid_fold(b.drop_last()), b.last());
    }
}

/// The fold of a single element is that element.
pub proof fn lemma_monoid_fold_singleton<E: Monoid>(x: E)
    ensures
        monoid_fold(seq![x]) == x,
{
    reveal_with_fuel(monoid_fold, 2);
    assert(seq![x].len() == 1);
    assert(seq![x].last() == x);
    assert(seq![x].drop_last() =~= Seq::<E>::empty());
    E::zero_left(x);
    assert(monoid_fold(seq![x]) == E::combine_spec(monoid_fold(seq![x].drop_last()), x));
    assert(monoid_fold(seq![x].drop_last()) == E::zero_spec());
}

/// The element monoid used by the examples and tests of this crate:
/// machine integers under wrapping addition.
#[derive(Clone, Copy, PartialEq, Eq, Structural, Debug)]
pub struct SumMonoid(pub i64);

impl Magma for SumMonoid {
    open spec fn combine_spec(a: Self, b: Self) -> Self {
        SumMonoid(vstd::wrapping::i64_specs::wrapping_add(a.0, b.0))
    }

    fn combine(a: &Self, b: &Self) -> (r: Self) {
        SumMonoid(a.0.wrapping_add(b.0))
    }
}

impl Semigroup for SumMonoid {
    proof fn combine_assoc(a: Self, b: Self, c: Self) {
    }
}

impl Monoid for SumMonoid {
    open spec fn zero_spec() -> Self {
        SumMonoid(0)
    }

    fn zero() -> (r: Self) {
        SumMonoid(0)
    }

    proof fn zero_left(a: Self) {
    }

    proof fn zero_right(a: Self) {
    }
}

/// The parameter set used by the examples and tests of this crate: sums as
/// elements, and an inert mapping monoid whose action leaves elements
/// unchanged.
pub struct LazySum;

impl LazyParam for LazySum {
    type Element = SumMonoid;

    type Mapping = SumMonoid;

    fn apply(mapping: Self::Mapping, element: Self::Element) -> Self::Element {
        element
    }
}

} // verus!
