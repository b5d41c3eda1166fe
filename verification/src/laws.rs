//! Laws relating the container's operations, stated over the views that the
//! operations' own contracts use.

use vstd::prelude::*;

use crate::algebra::LazyParam;
use crate::tree::PersistentLazyRBTree;

verus! {

/// Split/merge inverse law: splitting at any valid index and merging the two
/// parts back yields the original sequence. `split` returns the views
/// `t@.take(index)` and `t@.skip(index)`, and `merge` returns the
/// concatenation of its arguments' views, so the composition is the identity
/// on views.
pub proof fn lemma_split_merge_inverse<T: LazyParam>(t: PersistentLazyRBTree<T>, index: int)
    requires
        0 <= index <= t@.len(),
    ensures
        t@.take(index) + t@.skip(index) == t@,
{
    assert(t@.take(index) + t@.skip(index) =~= t@);
}

/// Insert/erase correctness: erasing at `index` right after inserting at
/// `index` yields the original sequence. `insert` returns the view
/// `t@.insert(index, val)` and `erase` returns the view of its receiver with
/// the position removed, so the composition is the identity on views.
pub proof fn lemma_insert_erase<T: LazyParam>(
    t: PersistentLazyRBTree<T>,
    index: int,
    val: T::Element,
)
    requires
        0 <= index <= t@.len(),
    ensures
        t@.insert(index, val).remove(index) == t@,
{
    assert(t@.insert(index, val).remove(index) =~= t@);
}

} // verus!

