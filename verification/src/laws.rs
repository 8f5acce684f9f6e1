//! The standing laws of the engine, stated over the public model and
//! proved once, so that callers can compose the operations' contracts.

use vstd::prelude::*;

use crate::shape::sorted;
use crate::shape::lemma_ordered_sorted;
use crate::shape::lemma_spec_insert_inorder;
use crate::shape::lemma_sorted_remove_at;
use crate::shape::lemma_sorted_unique;
use crate::bst::BstNode;

verus! {

/// The ordering invariant makes traversals sorted: whenever the engine
/// reports a tree ordered — as `tree_insert` and `tree_delete` do for
/// every tree they hand back, so in particular for any tree built
/// solely by insertions — its in-order traversal lists the keys in
/// strictly increasing order.
pub proof fn lemma_traversal_sorted(t: BstNode)
    requires
        t.ordered(),
    ensures
        sorted(t.inorder()),
{
    lemma_ordered_sorted(t.shape());
}

/// Insertion and search round-trip: inserting a key that is not yet
/// present puts it into the traversal and leaves the tree ordered, so a
/// search that follows the insertion — whose contract answers exactly
/// membership in the traversal — finds a node holding the key.
pub proof fn lemma_insert_search_round_trip(t: BstNode, k: i32, j: usize)
    requires
        t.ordered(),
        !t.inorder().contains(k),
    ensures
        t.shape().spec_insert(k, j).inorder().contains(k),
        t.shape().spec_insert(k, j).ordered(),
{
    lemma_spec_insert_inorder(t.shape(), k, j);
}

/// Deletion is exact: a sorted traversal that, member for member,
/// equals an older sorted traversal without the key at position `c` is
/// precisely that traversal with the one entry cut out.  Together with
/// `tree_delete`'s contract this pins the whole traversal after a
/// deletion, not only its key set.
pub proof fn lemma_delete_traversal_exact(before: Seq<i32>, after: Seq<i32>, c: int)
    requires
        sorted(before),
        sorted(after),
        0 <= c < before.len(),
        forall|v: i32| #[trigger] after.contains(v) <==> (before.contains(v) && v != before[c]),
    ensures
        after == before.subrange(0, c) + before.subrange(c + 1, before.len() as int),
{
    lemma_sorted_remove_at(before, c);
    let removed = before.subrange(0, c) + before.subrange(c + 1, before.len() as int);
    lemma_sorted_unique(after, removed);
}

} // verus!
