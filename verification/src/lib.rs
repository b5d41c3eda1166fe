//! A persistent, order-indexed sequence container built on a rank-balanced
//! red-black tree: logarithmic split, merge, positional insert/erase and
//! indexing, plus range aggregation under a user-supplied monoid. Every
//! operation returns a new value and leaves its inputs untouched; versions
//! share unchanged subtrees.

pub mod algebra;
mod node;
pub mod laws;
pub mod tree;

pub use algebra::LazyParam;
pub use algebra::LazySum;
pub use algebra::Magma;
pub use algebra::Monoid;
pub use algebra::Semigroup;
pub use algebra::SumMonoid;
pub use tree::Iter;
pub use tree::PersistentLazyRBTree;
