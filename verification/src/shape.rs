//! The mathematical model of the live tree: a recursive datatype over
//! arena indices and keys, with the spec functions and lemmas that the
//! engine's contracts are stated in.

use vstd::prelude::*;

verus! {

/// A strictly increasing sequence of keys.
pub open spec fn sorted(s: Seq<i32>) -> bool {
    forall|a: int, b: int| 0 <= a < b < s.len() ==> s[a] < s[b]
}

/// The ghost image of the tree reachable from a root: each node records
/// the arena index it lives at, its key, and its two subtrees.
pub enum Tree {
    Nil,
    Node { idx: usize, key: i32, left: Box<Tree>, right: Box<Tree> },
}

impl Tree {
    /// The arena index of the root, if the tree is non-empty.
    pub open spec fn root_idx(self) -> Option<usize> {
        match self {
            Tree::Nil => None,
            Tree::Node { idx, .. } => Some(idx),
        }
    }

    /// In-order traversal of the keys.
    pub open spec fn inorder(self) -> Seq<i32>
        decreases self,
    {
        match self {
            Tree::Nil => Seq::empty(),
            Tree::Node { key, left, right, .. } => left.inorder() + seq![key] + right.inorder(),
        }
    }

    /// Whether the node at arena index `i` is part of this tree.
    pub open spec fn contains_idx(self, i: usize) -> bool
        decreases self,
    {
        match self {
            Tree::Nil => false,
            Tree::Node { idx, left, right, .. } => idx == i || left.contains_idx(i)
                || right.contains_idx(i),
        }
    }

    /// Every arena index occurs at most once.
    pub open spec fn uniq(self) -> bool
        decreases self,
    {
        match self {
            Tree::Nil => true,
            Tree::Node { idx, left, right, .. } => left.uniq() && right.uniq()
                && !left.contains_idx(idx) && !right.contains_idx(idx)
                && (forall|m: usize| !(left.contains_idx(m) && right.contains_idx(m))),
        }
    }

    /// The binary-search-tree ordering: at every node all keys to the left
    /// are smaller and all keys to the right are larger.
    pub open spec fn ordered(self) -> bool
        decreases self,
    {
        match self {
            Tree::Nil => true,
            Tree::Node { key, left, right, .. } => left.ordered() && right.ordered()
                && (forall|m: int| 0 <= m < left.inorder().len() ==> left.inorder()[m] < key)
                && (forall|m: int| 0 <= m < right.inorder().len() ==> key < right.inorder()[m]),
        }
    }

    /// The subtree whose root lives at arena index `i`.
    pub open spec fn subtree_at(self, i: usize) -> Tree
        decreases self,
    {
        match self {
            Tree::Nil => Tree::Nil,
            Tree::Node { idx, left, right, .. } => if idx == i {
                self
            } else if left.contains_idx(i) {
                left.subtree_at(i)
            } else {
                right.subtree_at(i)
            },
        }
    }

    /// The key stored at arena index `i`.
    pub open spec fn key_at(self, i: usize) -> i32 {
        match self.subtree_at(i) {
            Tree::Nil => arbitrary(),
            Tree::Node { key, .. } => key,
        }
    }

    /// The arena index of the left child of the node at `i`.
    pub open spec fn left_of(self, i: usize) -> Option<usize> {
        match self.subtree_at(i) {
            Tree::Nil => None,
            Tree::Node { left, .. } => left.root_idx(),
        }
    }

    /// The arena index of the right child of the node at `i`.
    pub open spec fn right_of(self, i: usize) -> Option<usize> {
        match self.subtree_at(i) {
            Tree::Nil => None,
            Tree::Node { right, .. } => right.root_idx(),
        }
    }

    /// The parent of node `i`, where `p` is the parent of this whole tree.
    pub open spec fn parent_rec(self, i: usize, p: Option<usize>) -> Option<usize>
        decreases self,
    {
        match self {
            Tree::Nil => None,
            Tree::Node { idx, left, right, .. } => if idx == i {
                p
            } else if left.contains_idx(i) {
                left.parent_rec(i, Some(idx))
            } else {
                right.parent_rec(i, Some(idx))
            },
        }
    }

    /// The parent of node `i` within this tree; `None` for the root.
    pub open spec fn parent_of(self, i: usize) -> Option<usize> {
        self.parent_rec(i, None)
    }

    /// Distance of node `i` from the root of this tree.
    pub open spec fn depth_of(self, i: usize) -> nat
        decreases self,
    {
        match self {
            Tree::Nil => 0,
            Tree::Node { idx, left, right, .. } => if idx == i {
                0
            } else if left.contains_idx(i) {
                1 + left.depth_of(i)
            } else {
                1 + right.depth_of(i)
            },
        }
    }

    /// Replace the subtree rooted at arena index `i` by `s`.
    pub open spec fn replace_at(self, i: usize, s: Tree) -> Tree
        decreases self,
    {
        match self {
            Tree::Nil => Tree::Nil,
            Tree::Node { idx, key, left, right } => if idx == i {
                s
            } else {
                Tree::Node {
                    idx,
                    key,
                    left: Box::new(left.replace_at(i, s)),
                    right: Box::new(right.replace_at(i, s)),
                }
            },
        }
    }

    /// The keys that an in-order traversal visits before entering the
    /// subtree rooted at `i`.
    pub open spec fn ctx_left(self, i: usize) -> Seq<i32>
        decreases self,
    {
        match self {
            Tree::Nil => Seq::empty(),
            Tree::Node { idx, key, left, right } => if idx == i {
                Seq::empty()
            } else if left.contains_idx(i) {
                left.ctx_left(i)
            } else {
                left.inorder() + seq![key] + right.ctx_left(i)
            },
        }
    }

    /// The keys that an in-order traversal visits after leaving the
    /// subtree rooted at `i`.
    pub open spec fn ctx_right(self, i: usize) -> Seq<i32>
        decreases self,
    {
        match self {
            Tree::Nil => Seq::empty(),
            Tree::Node { idx, key, left, right } => if idx == i {
                Seq::empty()
            } else if left.contains_idx(i) {
                left.ctx_right(i) + seq![key] + right.inorder()
            } else {
                right.ctx_right(i)
            },
        }
    }

    /// The new tree after inserting key `k` in a fresh node at arena
    /// index `j`, routed by the usual comparison rule.
    pub open spec fn spec_insert(self, k: i32, j: usize) -> Tree
        decreases self,
    {
        match self {
            Tree::Nil => Tree::Node { idx: j, key: k, left: Box::new(Tree::Nil), right: Box::new(Tree::Nil) },
            Tree::Node { idx, key, left, right } => if k < key {
                Tree::Node { idx, key, left: Box::new(left.spec_insert(k, j)), right }
            } else {
                Tree::Node { idx, key, left, right: Box::new(right.spec_insert(k, j)) }
            },
        }
    }

    /// The arena index of the leftmost node (meaningful on non-empty trees).
    pub open spec fn leftmost(self) -> usize
        decreases self,
    {
        match self {
            Tree::Nil => arbitrary(),
            Tree::Node { idx, left, .. } => if (*left) is Nil {
                idx
            } else {
                left.leftmost()
            },
        }
    }

    /// The arena index of the rightmost node (meaningful on non-empty trees).
    pub open spec fn rightmost(self) -> usize
        decreases self,
    {
        match self {
            Tree::Nil => arbitrary(),
            Tree::Node { idx, right, .. } => if (*right) is Nil {
                idx
            } else {
                right.rightmost()
            },
        }
    }

    /// The same node with its left subtree replaced.
    pub open spec fn with_left(self, child: Tree) -> Tree {
        match self {
            Tree::Nil => Tree::Nil,
            Tree::Node { idx, key, right, .. } => Tree::Node {
                idx,
                key,
                left: Box::new(child),
                right,
            },
        }
    }

    /// The same node with its right subtree replaced.
    pub open spec fn with_right(self, child: Tree) -> Tree {
        match self {
            Tree::Nil => Tree::Nil,
            Tree::Node { idx, key, left, .. } => Tree::Node {
                idx,
                key,
                left,
                right: Box::new(child),
            },
        }
    }

}

/// A subtree is rooted at the index it was looked up by, stays free of
/// repeated indices, inherits the ordering, and contributes only indices
/// of the whole tree.
pub proof fn lemma_subtree_props(t: Tree, i: usize)
    requires
        t.uniq(),
        t.contains_idx(i),
    ensures
        t.subtree_at(i).root_idx() == Some(i),
        t.subtree_at(i).uniq(),
        t.ordered() ==> t.subtree_at(i).ordered(),
        forall|m: usize| t.subtree_at(i).contains_idx(m) ==> t.contains_idx(m),
        t.key_at(i) == t.subtree_at(i).key_at(i),
    decreases t,
{
    match t {
        Tree::Nil => {}
        Tree::Node { idx, left, right, .. } => {
            if idx == i {
                assert(t.subtree_at(i) == t);
            } else if left.contains_idx(i) {
                lemma_subtree_props(*left, i);
                assert(t.subtree_at(i) == left.subtree_at(i));
                assert forall|m: usize| t.subtree_at(i).contains_idx(m) implies t.contains_idx(m) by {
                    assert(left.subtree_at(i).contains_idx(m));
                    assert(left.contains_idx(m));
                }
            } else {
                lemma_subtree_props(*right, i);
                assert(t.subtree_at(i) == right.subtree_at(i));
                assert forall|m: usize| t.subtree_at(i).contains_idx(m) implies t.contains_idx(m) by {
                    assert(right.subtree_at(i).contains_idx(m));
                    assert(right.contains_idx(m));
                }
            }
        }
    }
}

/// Looking a node up inside a subtree gives the same subtree as looking
/// it up in the whole tree.
pub proof fn lemma_subtree_trans(t: Tree, i: usize, m: usize)
    requires
        t.uniq(),
        t.contains_idx(i),
        t.subtree_at(i).contains_idx(m),
    ensures
        t.contains_idx(m),
        t.subtree_at(m) == t.subtree_at(i).subtree_at(m),
    decreases t,
{
    match t {
        Tree::Nil => {}
        Tree::Node { idx, left, right, .. } => {
            if idx == i {
            } else if left.contains_idx(i) {
                lemma_subtree_trans(*left, i, m);
            } else {
                lemma_subtree_trans(*right, i, m);
            }
        }
    }
}

/// The in-order traversal decomposes around any subtree.
pub proof fn lemma_decompose(t: Tree, i: usize)
    requires
        t.contains_idx(i),
    ensures
        t.inorder() == t.ctx_left(i) + t.subtree_at(i).inorder() + t.ctx_right(i),
    decreases t,
{
    match t {
        Tree::Nil => {}
        Tree::Node { idx, key, left, right } => {
            if idx == i {
                assert(t.inorder() =~= t.ctx_left(i) + t.subtree_at(i).inorder() + t.ctx_right(i));
            } else if left.contains_idx(i) {
                lemma_decompose(*left, i);
                assert(t.inorder() =~= t.ctx_left(i) + t.subtree_at(i).inorder() + t.ctx_right(i));
            } else {
                lemma_decompose(*right, i);
                assert(t.inorder() =~= t.ctx_left(i) + t.subtree_at(i).inorder() + t.ctx_right(i));
            }
        }
    }
}

/// Replacing a subtree that is not there changes nothing.
pub proof fn lemma_replace_absent(t: Tree, i: usize, s: Tree)
    requires
        !t.contains_idx(i),
    ensures
        t.replace_at(i, s) == t,
    decreases t,
{
    match t {
        Tree::Nil => {}
        Tree::Node { left, right, .. } => {
            lemma_replace_absent(*left, i, s);
            lemma_replace_absent(*right, i, s);
        }
    }
}

/// After a replacement the traversal is the old context around the new
/// subtree's traversal.
pub proof fn lemma_replace_inorder(t: Tree, i: usize, s: Tree)
    requires
        t.uniq(),
        t.contains_idx(i),
    ensures
        t.replace_at(i, s).inorder() == t.ctx_left(i) + s.inorder() + t.ctx_right(i),
    decreases t,
{
    match t {
        Tree::Nil => {}
        Tree::Node { idx, key, left, right } => {
            if idx == i {
                assert(t.replace_at(i, s).inorder() =~= t.ctx_left(i) + s.inorder() + t.ctx_right(i));
            } else if left.contains_idx(i) {
                lemma_replace_inorder(*left, i, s);
                lemma_replace_absent(*right, i, s);
                assert(t.replace_at(i, s).inorder() =~= t.ctx_left(i) + s.inorder() + t.ctx_right(i));
            } else {
                lemma_replace_inorder(*right, i, s);
                lemma_replace_absent(*left, i, s);
                assert(t.replace_at(i, s).inorder() =~= t.ctx_left(i) + s.inorder() + t.ctx_right(i));
            }
        }
    }
}

/// Index bookkeeping for a replacement: which indices the result holds,
/// that it stays free of repeats, and where its root lies.
pub proof fn lemma_replace_props(t: Tree, i: usize, s: Tree)
    requires
        t.uniq(),
        t.contains_idx(i),
        s.uniq(),
        forall|m: usize| s.contains_idx(m) ==> !(t.contains_idx(m) && !t.subtree_at(i).contains_idx(m)),
    ensures
        t.replace_at(i, s).uniq(),
        forall|m: usize| t.replace_at(i, s).contains_idx(m) <==> ((t.contains_idx(m)
            && !t.subtree_at(i).contains_idx(m)) || s.contains_idx(m)),
        t.replace_at(i, s).root_idx() == if t.root_idx() == Some(i) { s.root_idx() } else { t.root_idx() },
    decreases t,
{
    match t {
        Tree::Nil => {}
        Tree::Node { idx, key, left, right } => {
            if idx == i {
                assert(forall|m: usize| !(t.contains_idx(m) && !t.subtree_at(i).contains_idx(m)));
            } else if left.contains_idx(i) {
                lemma_subtree_props(*left, i);
                assert(t.subtree_at(i) == left.subtree_at(i));
                lemma_replace_props(*left, i, s);
                lemma_replace_absent(*right, i, s);
                assert forall|m: usize| t.replace_at(i, s).contains_idx(m) implies ((t.contains_idx(m)
                    && !t.subtree_at(i).contains_idx(m)) || s.contains_idx(m)) by {
                    assert(t.replace_at(i, s).contains_idx(m) == (m == idx
                        || left.replace_at(i, s).contains_idx(m) || right.contains_idx(m)));
                }
                assert forall|m: usize| ((t.contains_idx(m) && !t.subtree_at(i).contains_idx(m))
                    || s.contains_idx(m)) implies t.replace_at(i, s).contains_idx(m) by {
                    assert(t.replace_at(i, s).contains_idx(m) == (m == idx
                        || left.replace_at(i, s).contains_idx(m) || right.contains_idx(m)));
                }
            } else {
                lemma_subtree_props(*right, i);
                assert(t.subtree_at(i) == right.subtree_at(i));
                lemma_replace_props(*right, i, s);
                lemma_replace_absent(*left, i, s);
                assert forall|m: usize| t.replace_at(i, s).contains_idx(m) implies ((t.contains_idx(m)
                    && !t.subtree_at(i).contains_idx(m)) || s.contains_idx(m)) by {
                    assert(t.replace_at(i, s).contains_idx(m) == (m == idx
                        || left.contains_idx(m) || right.replace_at(i, s).contains_idx(m)));
                }
                assert forall|m: usize| ((t.contains_idx(m) && !t.subtree_at(i).contains_idx(m))
                    || s.contains_idx(m)) implies t.replace_at(i, s).contains_idx(m) by {
                    assert(t.replace_at(i, s).contains_idx(m) == (m == idx
                        || left.contains_idx(m) || right.replace_at(i, s).contains_idx(m)));
                }
            }
        }
    }
}

/// The ordering property makes the in-order traversal strictly sorted.
pub proof fn lemma_ordered_sorted(t: Tree)
    requires
        t.ordered(),
    ensures
        sorted(t.inorder()),
    decreases t,
{
    match t {
        Tree::Nil => {}
        Tree::Node { key, left, right, .. } => {
            lemma_ordered_sorted(*left);
            lemma_ordered_sorted(*right);
            let s = t.inorder();
            let nl = left.inorder().len() as int;
            assert forall|a: int, b: int| 0 <= a < b < s.len() implies s[a] < s[b] by {
                if a < nl && b < nl {
                    assert(left.inorder()[a] < left.inorder()[b]);
                } else if a < nl && b == nl {
                    assert(left.inorder()[a] < key);
                } else if a < nl && b > nl {
                    assert(left.inorder()[a] < key);
                    assert(key < right.inorder()[b - nl - 1]);
                } else if a == nl && b > nl {
                    assert(key < right.inorder()[b - nl - 1]);
                } else {
                    assert(right.inorder()[a - nl - 1] < right.inorder()[b - nl - 1]);
                }
            }
        }
    }
}

/// On an ordered node, membership of a key routes by one comparison.
pub proof fn lemma_ordered_member(t: Tree, v: i32)
    requires
        t is Node,
        t.ordered(),
    ensures
        match t {
            Tree::Nil => true,
            Tree::Node { key, left, right, .. } => {
                &&& (v < key ==> (t.inorder().contains(v) <==> left.inorder().contains(v)))
                &&& (v == key ==> t.inorder().contains(v))
                &&& (v > key ==> (t.inorder().contains(v) <==> right.inorder().contains(v)))
            },
        },
{
    match t {
        Tree::Nil => {}
        Tree::Node { key, left, right, .. } => {
            let li = left.inorder();
            let ri = right.inorder();
            let s = t.inorder();
            let nl = li.len() as int;
            assert(s[nl] == key);
            assert(s.contains(key)) by {
                assert(0 <= nl < s.len() && s[nl] == key);
            }
            if li.contains(v) {
                let c = choose|c: int| 0 <= c < li.len() && li[c] == v;
                assert(s[c] == v);
                assert(s.contains(v));
            }
            if ri.contains(v) {
                let c = choose|c: int| 0 <= c < ri.len() && ri[c] == v;
                assert(s[nl + 1 + c] == v);
                assert(s.contains(v));
            }
            if s.contains(v) && v != key {
                let c = choose|c: int| 0 <= c < s.len() && s[c] == v;
                if c < nl {
                    assert(li[c] == v);
                    assert(li.contains(v));
                    assert(v < key);
                } else if c > nl {
                    assert(ri[c - nl - 1] == v);
                    assert(ri.contains(v));
                    assert(v > key);
                }
            }
        }
    }
}

/// The leftmost node of a non-empty tree: where it lies, that it has no
/// left child, and that its key opens the traversal.
pub proof fn lemma_leftmost(t: Tree)
    requires
        t is Node,
        t.uniq(),
    ensures
        t.contains_idx(t.leftmost()),
        t.inorder().len() > 0,
        t.subtree_at(t.leftmost()) is Node,
        t.left_of(t.leftmost()) is None,
        t.key_at(t.leftmost()) == t.inorder()[0],
    decreases t,
{
    match t {
        Tree::Nil => {}
        Tree::Node { idx, key, left, right, .. } => {
            if (*left) is Nil {
                assert(t.subtree_at(idx) == t);
                assert(left.inorder().len() == 0);
                assert(t.inorder() == left.inorder() + seq![key] + right.inorder());
                assert((left.inorder() + seq![key])[0] == key);
                assert(t.inorder()[0] == key);
            } else {
                lemma_leftmost(*left);
                let lm = left.leftmost();
                assert(idx != lm);
                assert(t.subtree_at(lm) == left.subtree_at(lm));
                assert(t.inorder() == left.inorder() + seq![key] + right.inorder());
                assert((left.inorder() + seq![key])[0] == left.inorder()[0]);
                assert(t.inorder()[0] == left.inorder()[0]);
            }
        }
    }
}

/// The rightmost node of a non-empty tree: where it lies, that it has no
/// right child, and that its key closes the traversal.
pub proof fn lemma_rightmost(t: Tree)
    requires
        t is Node,
        t.uniq(),
    ensures
        t.contains_idx(t.rightmost()),
        t.inorder().len() > 0,
        t.subtree_at(t.rightmost()) is Node,
        t.right_of(t.rightmost()) is None,
        t.key_at(t.rightmost()) == t.inorder()[t.inorder().len() - 1],
    decreases t,
{
    match t {
        Tree::Nil => {}
        Tree::Node { idx, key, left, right, .. } => {
            let nl = left.inorder().len() as int;
            assert(t.inorder() == left.inorder() + seq![key] + right.inorder());
            if (*right) is Nil {
                assert(t.subtree_at(idx) == t);
                assert(right.inorder().len() == 0);
                assert((left.inorder() + seq![key])[nl] == key);
                assert(t.inorder()[t.inorder().len() - 1] == key);
            } else {
                lemma_rightmost(*right);
                let rm = right.rightmost();
                assert(idx != rm);
                assert(t.subtree_at(rm) == right.subtree_at(rm));
                assert(t.inorder()[t.inorder().len() - 1]
                    == right.inorder()[right.inorder().len() - 1]);
            }
        }
    }
}

/// The parent of a non-root node does not depend on the parent handed to
/// the whole tree.
pub proof fn lemma_parent_rec_indep(t: Tree, i: usize, p1: Option<usize>, p2: Option<usize>)
    requires
        t.contains_idx(i),
        t.root_idx() != Some(i),
    ensures
        t.parent_rec(i, p1) == t.parent_rec(i, p2),
    decreases t,
{
    match t {
        Tree::Nil => {}
        Tree::Node { idx, left, right, .. } => {
            if left.contains_idx(i) {
                if left.root_idx() == Some(i) {
                } else {
                    lemma_parent_rec_indep(*left, i, Some(idx), Some(idx));
                }
            } else {
                if right.root_idx() == Some(i) {
                } else {
                    lemma_parent_rec_indep(*right, i, Some(idx), Some(idx));
                }
            }
        }
    }
}


/// After replacing the subtree at `i` by a tree rooted at `i`, looking
/// `i` up finds exactly the replacement.
pub proof fn lemma_replace_subtree_self(t: Tree, i: usize, s: Tree)
    requires
        t.uniq(),
        t.contains_idx(i),
        s.root_idx() == Some(i),
    ensures
        t.replace_at(i, s).subtree_at(i) == s,
        t.replace_at(i, s).contains_idx(i),
    decreases t,
{
    match t {
        Tree::Nil => {}
        Tree::Node { idx, key, left, right } => {
            if idx == i {
                assert(t.replace_at(i, s) == s);
                assert(s.contains_idx(i));
                assert(s.subtree_at(i) == s);
            } else if left.contains_idx(i) {
                lemma_replace_subtree_self(*left, i, s);
                lemma_replace_absent(*right, i, s);
                assert(!right.contains_idx(i));
                assert(t.replace_at(i, s) == Tree::Node {
                    idx,
                    key,
                    left: Box::new(left.replace_at(i, s)),
                    right: Box::new(right.replace_at(i, s)),
                });
            } else {
                lemma_replace_subtree_self(*right, i, s);
                lemma_replace_absent(*left, i, s);
                assert(t.replace_at(i, s) == Tree::Node {
                    idx,
                    key,
                    left: Box::new(left.replace_at(i, s)),
                    right: Box::new(right.replace_at(i, s)),
                });
            }
        }
    }
}

/// A parent link found inside a subtree agrees with the whole tree.
pub proof fn lemma_parent_trans(t: Tree, i: usize, m: usize, p: Option<usize>)
    requires
        t.uniq(),
        t.contains_idx(i),
        t.subtree_at(i).contains_idx(m),
    ensures
        t.parent_rec(m, p) == t.subtree_at(i).parent_rec(m, t.parent_rec(i, p)),
    decreases t,
{
    match t {
        Tree::Nil => {}
        Tree::Node { idx, left, right, .. } => {
            if idx == i {
                assert(t.subtree_at(i) == t);
            } else if left.contains_idx(i) {
                lemma_subtree_props(*left, i);
                assert(t.subtree_at(i) == left.subtree_at(i));
                assert(left.contains_idx(m));
                assert(m != idx);
                lemma_parent_trans(*left, i, m, Some(idx));
            } else {
                lemma_subtree_props(*right, i);
                assert(t.subtree_at(i) == right.subtree_at(i));
                assert(right.contains_idx(m));
                assert(m != idx);
                assert(!left.contains_idx(m));
                lemma_parent_trans(*right, i, m, Some(idx));
            }
        }
    }
}

/// A node's parent never lies inside the node's own subtree.
pub proof fn lemma_parent_outside(t: Tree, i: usize)
    requires
        t.uniq(),
        t.contains_idx(i),
        t.parent_of(i) is Some,
    ensures
        !t.subtree_at(i).contains_idx(t.parent_of(i).unwrap()),
{
    lemma_parent_step(t, i, None);
    lemma_subtree_props(t, i);
    let q = t.parent_of(i).unwrap();
    let sub = t.subtree_at(i);
    if sub.contains_idx(q) {
        assert(q != i) by {
            assert(t.subtree_at(q) is Node);
            if q == i {
                match sub {
                    Tree::Nil => {}
                    Tree::Node { idx, left, right, .. } => {
                        assert(left.root_idx() == Some(i) || right.root_idx() == Some(i));
                        assert(left.contains_idx(i) || right.contains_idx(i));
                    }
                }
            }
        }
        lemma_subtree_trans(t, i, q);
        match sub {
            Tree::Nil => {}
            Tree::Node { idx, left, right, .. } => {
                if left.contains_idx(q) {
                    lemma_subtree_props(*left, q);
                    assert(sub.subtree_at(q) == left.subtree_at(q));
                    match t.subtree_at(q) {
                        Tree::Nil => {}
                        Tree::Node { left: ql, right: qr, .. } => {
                            assert(ql.root_idx() == Some(i) || qr.root_idx() == Some(i));
                            if ql.root_idx() == Some(i) {
                                assert((*ql).contains_idx(i));
                            } else {
                                assert((*qr).contains_idx(i));
                            }
                            assert(t.subtree_at(q).contains_idx(i));
                            assert(left.contains_idx(i));
                        }
                    }
                } else {
                    lemma_subtree_props(*right, q);
                    assert(sub.subtree_at(q) == right.subtree_at(q));
                    match t.subtree_at(q) {
                        Tree::Nil => {}
                        Tree::Node { left: ql, right: qr, .. } => {
                            assert(ql.root_idx() == Some(i) || qr.root_idx() == Some(i));
                            if ql.root_idx() == Some(i) {
                                assert((*ql).contains_idx(i));
                            } else {
                                assert((*qr).contains_idx(i));
                            }
                            assert(t.subtree_at(q).contains_idx(i));
                            assert(right.contains_idx(i));
                        }
                    }
                }
            }
        }
    }
}

/// The leftmost node opens the traversal context and hangs, when it is
/// not the root, as the left child of its parent.
pub proof fn lemma_leftmost_parent(t: Tree)
    requires
        t is Node,
        t.uniq(),
    ensures
        t.ctx_left(t.leftmost()) == Seq::<i32>::empty(),
        t.root_idx() != Some(t.leftmost()) ==> {
            let sp = t.parent_of(t.leftmost());
            &&& sp is Some
            &&& t.contains_idx(sp.unwrap())
            &&& t.left_of(sp.unwrap()) == Some(t.leftmost())
        },
    decreases t,
{
    lemma_leftmost(t);
    lemma_parent_step(t, t.leftmost(), None);
    match t {
        Tree::Nil => {}
        Tree::Node { idx, key, left, right } => {
            if (*left) is Nil {
                assert(t.ctx_left(t.leftmost()) =~= Seq::<i32>::empty());
            } else {
                lemma_leftmost_parent(*left);
                lemma_leftmost(*left);
                let lm = left.leftmost();
                assert(idx != lm);
                assert(t.ctx_left(lm) == left.ctx_left(lm));
                if left.root_idx() == Some(lm) {
                    assert(t.parent_rec(lm, None) == Some(idx));
                    assert(t.subtree_at(idx) == t);
                    assert(t.left_of(idx) == Some(lm));
                } else {
                    let sp = left.parent_of(lm).unwrap();
                    lemma_parent_rec_indep(*left, lm, Some(idx), None);
                    assert(t.parent_rec(lm, None) == left.parent_rec(lm, Some(idx)));
                    assert(t.parent_of(lm) == Some(sp));
                    assert(left.contains_idx(sp));
                    assert(idx != sp);
                    assert(t.subtree_at(sp) == left.subtree_at(sp));
                }
            }
        }
    }
}

/// Removing the entry at one position of a strictly sorted sequence:
/// the rest stays sorted and loses exactly that member.
pub proof fn lemma_sorted_remove_at(s: Seq<i32>, c: int)
    requires
        sorted(s),
        0 <= c < s.len(),
    ensures
        (s.subrange(0, c) + s.subrange(c + 1, s.len() as int)).len() == s.len() - 1,
        sorted(s.subrange(0, c) + s.subrange(c + 1, s.len() as int)),
        forall|v: i32| #[trigger] (s.subrange(0, c) + s.subrange(c + 1, s.len() as int)).contains(v)
            <==> (s.contains(v) && v != s[c]),
{
    let rn = s.subrange(0, c) + s.subrange(c + 1, s.len() as int);
    assert(forall|m: int| 0 <= m < c ==> rn[m] == s[m]);
    assert(forall|m: int| c <= m < rn.len() ==> rn[m] == s[m + 1]);
    assert forall|v: i32| #[trigger] rn.contains(v) <==> (s.contains(v) && v != s[c]) by {
        if rn.contains(v) {
            let d = choose|d: int| 0 <= d < rn.len() && rn[d] == v;
            if d < c {
                assert(s[d] == v);
                assert(s.contains(v));
                assert(s[d] < s[c]);
            } else {
                assert(s[d + 1] == v);
                assert(s.contains(v));
                assert(s[c] < s[d + 1]);
            }
        }
        if s.contains(v) && v != s[c] {
            let d = choose|d: int| 0 <= d < s.len() && s[d] == v;
            assert(d != c);
            if d < c {
                assert(rn[d] == v);
                assert(rn.contains(v));
            } else {
                assert(rn[d - 1] == v);
                assert(rn.contains(v));
            }
        }
    }
}

/// Two strictly sorted sequences with the same members are equal.
pub proof fn lemma_sorted_unique(a: Seq<i32>, b: Seq<i32>)
    requires
        sorted(a),
        sorted(b),
        forall|v: i32| a.contains(v) <==> b.contains(v),
    ensures
        a == b,
    decreases a.len(),
{
    if a.len() == 0 {
        if b.len() > 0 {
            assert(b.contains(b[0]));
            assert(a.contains(b[0]));
        }
        assert(a =~= b);
    } else {
        assert(a.contains(a[0]));
        assert(b.contains(a[0]));
        if b.len() == 0 {
            assert(!b.contains(a[0]));
        }
        assert(a[0] == b[0]) by {
            let ca = choose|c: int| 0 <= c < b.len() && b[c] == a[0];
            assert(b[0] <= b[ca]);
            assert(b.contains(b[0]));
            assert(a.contains(b[0]));
            let cb = choose|c: int| 0 <= c < a.len() && a[c] == b[0];
            assert(a[0] <= a[cb]);
        }
        let a1 = a.subrange(1, a.len() as int);
        let b1 = b.subrange(1, b.len() as int);
        assert(sorted(a1)) by {
            assert(forall|m: int| 0 <= m < a1.len() ==> a1[m] == a[m + 1]);
        }
        assert(sorted(b1)) by {
            assert(forall|m: int| 0 <= m < b1.len() ==> b1[m] == b[m + 1]);
        }
        assert forall|v: i32| a1.contains(v) <==> b1.contains(v) by {
            if a1.contains(v) {
                let c = choose|c: int| 0 <= c < a1.len() && a1[c] == v;
                assert(a[c + 1] == v);
                assert(a.contains(v));
                assert(a[0] < v);
                assert(b.contains(v));
                let d = choose|d: int| 0 <= d < b.len() && b[d] == v;
                assert(d != 0);
                assert(b1[d - 1] == v);
                assert(b1.contains(v));
            }
            if b1.contains(v) {
                let c = choose|c: int| 0 <= c < b1.len() && b1[c] == v;
                assert(b[c + 1] == v);
                assert(b.contains(v));
                assert(b[0] < v);
                assert(a.contains(v));
                let d = choose|d: int| 0 <= d < a.len() && a[d] == v;
                assert(d != 0);
                assert(a1[d - 1] == v);
                assert(a1.contains(v));
            }
        }
        lemma_sorted_unique(a1, b1);
        assert(a.len() == b.len());
        assert forall|m: int| 0 <= m < a.len() implies a[m] == b[m] by {
            if m > 0 {
                assert(a1[m - 1] == a[m]);
                assert(b1[m - 1] == b[m]);
            }
        }
        assert(a =~= b);
    }
}

/// Following a parent link: the root has the outer parent, and any other
/// node's parent is a live node one level up that points back down at it.
pub proof fn lemma_parent_step(t: Tree, i: usize, p: Option<usize>)
    requires
        t.uniq(),
        t.contains_idx(i),
    ensures
        t.root_idx() == Some(i) ==> t.parent_rec(i, p) == p,
        t.root_idx() != Some(i) ==> t.parent_rec(i, p) is Some,
        t.root_idx() != Some(i) ==> {
            let q = t.parent_rec(i, p).unwrap();
            &&& t.contains_idx(q)
            &&& (t.left_of(q) == Some(i) || t.right_of(q) == Some(i))
            &&& t.depth_of(i) == t.depth_of(q) + 1
        },
    decreases t,
{
    match t {
        Tree::Nil => {}
        Tree::Node { idx, key, left, right } => {
            if idx == i {
            } else if left.contains_idx(i) {
                if left.root_idx() == Some(i) {
                    lemma_parent_step(*left, i, Some(idx));
                    assert(t.parent_rec(i, p) == Some(idx));
                    assert(t.subtree_at(idx) == t);
                    assert(t.depth_of(i) == 1 + left.depth_of(i));
                    assert(left.depth_of(i) == 0);
                } else {
                    lemma_parent_step(*left, i, Some(idx));
                    let q = left.parent_rec(i, Some(idx)).unwrap();
                    assert(left.contains_idx(q));
                    assert(idx != q);
                    assert(t.subtree_at(q) == left.subtree_at(q));
                }
            } else {
                if right.root_idx() == Some(i) {
                    lemma_parent_step(*right, i, Some(idx));
                    assert(t.parent_rec(i, p) == Some(idx));
                    assert(t.subtree_at(idx) == t);
                    assert(t.depth_of(i) == 1 + right.depth_of(i));
                    assert(right.depth_of(i) == 0);
                } else {
                    lemma_parent_step(*right, i, Some(idx));
                    let q = right.parent_rec(i, Some(idx)).unwrap();
                    assert(right.contains_idx(q));
                    assert(idx != q);
                    assert(t.subtree_at(q) == right.subtree_at(q));
                }
            }
        }
    }
}

/// Stepping from a node down to one of its children: how the child's
/// subtree and traversal contexts relate to the node's own.
pub proof fn lemma_ctx_child(t: Tree, q: usize)
    requires
        t.uniq(),
        t.contains_idx(q),
        t.subtree_at(q) is Node,
    ensures
        match t.subtree_at(q) {
            Tree::Nil => true,
            Tree::Node { idx, key, left, right } => {
                &&& ((*left) is Node ==> t.contains_idx(left.root_idx().unwrap())
                    && t.subtree_at(left.root_idx().unwrap()) == *left
                    && t.ctx_left(left.root_idx().unwrap()) == t.ctx_left(q)
                    && t.ctx_right(left.root_idx().unwrap()) == seq![key] + right.inorder()
                        + t.ctx_right(q))
                &&& ((*right) is Node ==> t.contains_idx(right.root_idx().unwrap())
                    && t.subtree_at(right.root_idx().unwrap()) == *right
                    && t.ctx_left(right.root_idx().unwrap()) == t.ctx_left(q) + left.inorder()
                        + seq![key]
                    && t.ctx_right(right.root_idx().unwrap()) == t.ctx_right(q))
            },
        },
    decreases t,
{
    match t {
        Tree::Nil => {}
        Tree::Node { idx, key, left, right } => {
            if idx == q {
                assert(t.subtree_at(q) == t);
                if (*left) is Node {
                    let c = left.root_idx().unwrap();
                    assert(left.contains_idx(c));
                    assert(idx != c);
                    assert(t.subtree_at(c) == left.subtree_at(c));
                    assert(left.subtree_at(c) == *left);
                    assert(left.ctx_left(c) =~= Seq::<i32>::empty());
                    assert(left.ctx_right(c) =~= Seq::<i32>::empty());
                    assert(t.ctx_left(c) == left.ctx_left(c));
                    assert(t.ctx_right(c) =~= seq![key] + right.inorder() + t.ctx_right(q));
                    assert(t.ctx_left(c) =~= t.ctx_left(q));
                }
                if (*right) is Node {
                    let c = right.root_idx().unwrap();
                    assert(right.contains_idx(c));
                    assert(idx != c);
                    assert(!left.contains_idx(c));
                    assert(t.subtree_at(c) == right.subtree_at(c));
                    assert(right.subtree_at(c) == *right);
                    assert(right.ctx_left(c) =~= Seq::<i32>::empty());
                    assert(right.ctx_right(c) =~= Seq::<i32>::empty());
                    assert(t.ctx_left(c) =~= t.ctx_left(q) + left.inorder() + seq![key]);
                    assert(t.ctx_right(c) =~= t.ctx_right(q));
                }
            } else if left.contains_idx(q) {
                lemma_ctx_child(*left, q);
                assert(t.subtree_at(q) == left.subtree_at(q));
                match left.subtree_at(q) {
                    Tree::Nil => {}
                    Tree::Node { idx: qi, key: qk, left: ql, right: qr } => {
                        if (*ql) is Node {
                            let c = ql.root_idx().unwrap();
                            assert(left.contains_idx(c));
                            assert(idx != c);
                            assert(t.subtree_at(c) == left.subtree_at(c));
                            assert(t.ctx_left(c) == left.ctx_left(c));
                            assert(t.ctx_left(q) == left.ctx_left(q));
                            assert(t.ctx_right(c) =~= seq![qk] + qr.inorder() + t.ctx_right(q));
                        }
                        if (*qr) is Node {
                            let c = qr.root_idx().unwrap();
                            assert(left.contains_idx(c));
                            assert(idx != c);
                            assert(t.subtree_at(c) == left.subtree_at(c));
                            assert(t.ctx_right(c) == left.ctx_right(c) + seq![key] + right.inorder());
                            assert(t.ctx_right(q) == left.ctx_right(q) + seq![key] + right.inorder());
                            assert(t.ctx_right(c) =~= t.ctx_right(q));
                            assert(t.ctx_left(c) =~= t.ctx_left(q) + ql.inorder() + seq![qk]);
                        }
                    }
                }
            } else {
                lemma_ctx_child(*right, q);
                assert(t.subtree_at(q) == right.subtree_at(q));
                match right.subtree_at(q) {
                    Tree::Nil => {}
                    Tree::Node { idx: qi, key: qk, left: ql, right: qr } => {
                        if (*ql) is Node {
                            let c = ql.root_idx().unwrap();
                            assert(right.contains_idx(c));
                            assert(idx != c);
                            assert(!left.contains_idx(c));
                            assert(t.subtree_at(c) == right.subtree_at(c));
                            assert(t.ctx_left(c) == left.inorder() + seq![key] + right.ctx_left(c));
                            assert(t.ctx_left(q) == left.inorder() + seq![key] + right.ctx_left(q));
                            assert(t.ctx_left(c) =~= t.ctx_left(q));
                            assert(t.ctx_right(c) =~= seq![qk] + qr.inorder() + t.ctx_right(q));
                        }
                        if (*qr) is Node {
                            let c = qr.root_idx().unwrap();
                            assert(right.contains_idx(c));
                            assert(idx != c);
                            assert(!left.contains_idx(c));
                            assert(t.subtree_at(c) == right.subtree_at(c));
                            assert(t.ctx_left(c) == left.inorder() + seq![key] + right.ctx_left(c));
                            assert(t.ctx_left(c) =~= t.ctx_left(q) + ql.inorder() + seq![qk]);
                            assert(t.ctx_right(c) =~= t.ctx_right(q));
                        }
                    }
                }
            }
        }
    }
}

/// Index bookkeeping for an insertion: the tree gains exactly the fresh
/// index, keeps its root unless it was empty, and stays free of repeats.
pub proof fn lemma_spec_insert_idxs(t: Tree, k: i32, j: usize)
    requires
        t.uniq(),
        !t.contains_idx(j),
    ensures
        t.spec_insert(k, j).uniq(),
        forall|m: usize| #![trigger t.spec_insert(k, j).contains_idx(m)]
            t.spec_insert(k, j).contains_idx(m) <==> (t.contains_idx(m) || m == j),
        t.spec_insert(k, j).root_idx() == if t is Nil { Some(j) } else { t.root_idx() },
        t.spec_insert(k, j).key_at(j) == k,
        t.spec_insert(k, j) is Node,
    decreases t,
{
    let r = t.spec_insert(k, j);
    match t {
        Tree::Nil => {
            assert(r.subtree_at(j) == r);
        }
        Tree::Node { idx, key, left, right } => {
            if k < key {
                lemma_spec_insert_idxs(*left, k, j);
                let lr = left.spec_insert(k, j);
                assert(r == Tree::Node { idx, key, left: Box::new(lr), right });
                assert(lr.contains_idx(j));
                assert(r.key_at(j) == k) by {
                    assert(idx != j);
                    assert(r.subtree_at(j) == lr.subtree_at(j));
                }
                assert(r.uniq()) by {
                    assert forall|m: usize| !(lr.contains_idx(m) && right.contains_idx(m)) by {
                        if lr.contains_idx(m) {
                            assert(left.contains_idx(m) || m == j);
                        }
                    }
                    assert(!lr.contains_idx(idx));
                }
                assert forall|m: usize| t.spec_insert(k, j).contains_idx(m) <==> (t.contains_idx(m)
                    || m == j) by {
                    assert(r.contains_idx(m) == (m == idx || lr.contains_idx(m)
                        || right.contains_idx(m)));
                    assert(t.contains_idx(m) == (m == idx || left.contains_idx(m)
                        || right.contains_idx(m)));
                }
            } else {
                lemma_spec_insert_idxs(*right, k, j);
                let rr = right.spec_insert(k, j);
                assert(r == Tree::Node { idx, key, left, right: Box::new(rr) });
                assert(rr.contains_idx(j));
                assert(r.key_at(j) == k) by {
                    assert(idx != j);
                    assert(!left.contains_idx(j));
                    assert(r.subtree_at(j) == rr.subtree_at(j));
                }
                assert(r.uniq()) by {
                    assert forall|m: usize| !(left.contains_idx(m) && rr.contains_idx(m)) by {
                        if rr.contains_idx(m) {
                            assert(right.contains_idx(m) || m == j);
                        }
                    }
                    assert(!rr.contains_idx(idx));
                }
                assert forall|m: usize| t.spec_insert(k, j).contains_idx(m) <==> (t.contains_idx(m)
                    || m == j) by {
                    assert(r.contains_idx(m) == (m == idx || left.contains_idx(m)
                        || rr.contains_idx(m)));
                    assert(t.contains_idx(m) == (m == idx || left.contains_idx(m)
                        || right.contains_idx(m)));
                }
            }
        }
    }
}

/// Splicing one key into a sequence: what it does to length and
/// membership.
#[verifier::rlimit(50)]
proof fn lemma_splice_facts(s: Seq<i32>, rn: Seq<i32>, k: i32)
    requires
        exists|c: int| 0 <= c <= s.len() && rn == s.subrange(0, c) + seq![k]
            + s.subrange(c, s.len() as int),
    ensures
        rn.len() == s.len() + 1,
        forall|v: i32| #[trigger] rn.contains(v) <==> (s.contains(v) || v == k),
{
    let c = choose|c: int| 0 <= c <= s.len() && rn == s.subrange(0, c) + seq![k]
        + s.subrange(c, s.len() as int);
    assert(rn.len() == s.len() + 1);
    assert(forall|m: int| 0 <= m < c ==> rn[m] == s[m]);
    assert(rn[c] == k);
    assert(forall|m: int| c < m < rn.len() ==> rn[m] == s[m - 1]);
    assert forall|v: i32| #[trigger] rn.contains(v) <==> (s.contains(v) || v == k) by {
        if rn.contains(v) {
            let d = choose|d: int| 0 <= d < rn.len() && rn[d] == v;
            if d < c {
                assert(s[d] == v);
                assert(s.contains(v));
            } else if d > c {
                assert(s[d - 1] == v);
                assert(s.contains(v));
            }
        }
        if s.contains(v) {
            let d = choose|d: int| 0 <= d < s.len() && s[d] == v;
            if d < c {
                assert(rn[d] == v);
                assert(rn.contains(v));
            } else {
                assert(rn[d + 1] == v);
                assert(rn.contains(v));
            }
        }
        if v == k {
            assert(rn[c] == v);
            assert(rn.contains(v));
        }
    }
}

/// What inserting a fresh key does to the traversal: the ordering is
/// kept and the new key lands at its sorted position.
#[verifier::rlimit(50)]
pub proof fn lemma_spec_insert_inorder(t: Tree, k: i32, j: usize)
    requires
        t.ordered(),
        !t.inorder().contains(k),
    ensures
        t.spec_insert(k, j).ordered(),
        t.spec_insert(k, j).inorder().contains(k),
        t.spec_insert(k, j).inorder().len() == t.inorder().len() + 1,
        forall|v: i32| #[trigger] t.spec_insert(k, j).inorder().contains(v)
            <==> (t.inorder().contains(v) || v == k),
        exists|c: int| 0 <= c <= t.inorder().len() && t.spec_insert(k, j).inorder()
            == t.inorder().subrange(0, c) + seq![k] + t.inorder().subrange(c, t.inorder().len() as int),
    decreases t,
{
    let r = t.spec_insert(k, j);
    match t {
        Tree::Nil => {
            assert(r.inorder() =~= Seq::<i32>::empty() + seq![k] + Seq::<i32>::empty());
            assert(r.inorder() == t.inorder().subrange(0, 0) + seq![k]
                + t.inorder().subrange(0, t.inorder().len() as int)) by {
                assert(t.inorder().subrange(0, 0) =~= Seq::<i32>::empty());
                assert(t.inorder().subrange(0, t.inorder().len() as int) =~= t.inorder());
            }
            assert(r.inorder()[0] == k);
        }
        Tree::Node { idx, key, left, right } => {
            let li = left.inorder();
            let ri = right.inorder();
            let s = t.inorder();
            let nl = li.len() as int;
            assert(s == li + seq![key] + ri);
            assert(s[nl] == key);
            assert(s.contains(key)) by {
                assert(0 <= nl < s.len() && s[nl] == key);
            }
            assert(k != key);
            assert(forall|c: int| 0 <= c < nl ==> s[c] == li[c]);
            assert(forall|c: int| 0 <= c < ri.len() ==> s[nl + 1 + c] == ri[c]);
            if k < key {
                assert(!li.contains(k)) by {
                    if li.contains(k) {
                        let c = choose|c: int| 0 <= c < li.len() && li[c] == k;
                        assert(s[c] == k);
                        assert(s.contains(k));
                    }
                }
                lemma_spec_insert_inorder(*left, k, j);
                let lr = left.spec_insert(k, j);
                assert(r == Tree::Node { idx, key, left: Box::new(lr), right });
                assert(r.inorder() == lr.inorder() + seq![key] + ri);
                let c = choose|c: int| 0 <= c <= li.len() && lr.inorder()
                    == li.subrange(0, c) + seq![k] + li.subrange(c, li.len() as int);
                assert(r.inorder() =~= s.subrange(0, c) + seq![k]
                    + s.subrange(c, s.len() as int)) by {
                    assert(s.subrange(0, c) =~= li.subrange(0, c));
                    assert(s.subrange(c, s.len() as int) =~= li.subrange(c, li.len() as int)
                        + seq![key] + ri);
                }
                assert(r.ordered()) by {
                    assert forall|m: int| 0 <= m < lr.inorder().len() implies lr.inorder()[m] < key by {
                        if m < c {
                            assert(lr.inorder()[m] == li[m]);
                        } else if m == c {
                            assert(lr.inorder()[m] == k);
                        } else {
                            assert(lr.inorder()[m] == li[m - 1]);
                        }
                    }
                }
                assert(r.inorder()[c] == k);
                assert(r.inorder().contains(k));
            } else {
                assert(k > key);
                assert(!ri.contains(k)) by {
                    if ri.contains(k) {
                        let c = choose|c: int| 0 <= c < ri.len() && ri[c] == k;
                        assert(s[nl + 1 + c] == k);
                        assert(s.contains(k));
                    }
                }
                lemma_spec_insert_inorder(*right, k, j);
                let rr = right.spec_insert(k, j);
                assert(r == Tree::Node { idx, key, left, right: Box::new(rr) });
                assert(r.inorder() == li + seq![key] + rr.inorder());
                let c = choose|c: int| 0 <= c <= ri.len() && rr.inorder()
                    == ri.subrange(0, c) + seq![k] + ri.subrange(c, ri.len() as int);
                assert(r.inorder() =~= s.subrange(0, nl + 1 + c) + seq![k]
                    + s.subrange(nl + 1 + c, s.len() as int)) by {
                    assert(s.subrange(0, nl + 1 + c) =~= li + seq![key] + ri.subrange(0, c));
                    assert(s.subrange(nl + 1 + c, s.len() as int)
                        =~= ri.subrange(c, ri.len() as int));
                }
                assert(0 <= nl + 1 + c <= s.len());
                assert(r.ordered()) by {
                    assert forall|m: int| 0 <= m < rr.inorder().len() implies key < rr.inorder()[m] by {
                        if m < c {
                            assert(rr.inorder()[m] == ri[m]);
                        } else if m == c {
                            assert(rr.inorder()[m] == k);
                        } else {
                            assert(rr.inorder()[m] == ri[m - 1]);
                        }
                    }
                }
                assert(r.inorder()[nl + 1 + c] == k);
                assert(r.inorder().contains(k));
            }
        }
    }
    lemma_splice_facts(t.inorder(), t.spec_insert(k, j).inorder(), k);
}

/// A strictly sorted in-order traversal forces the ordering property.
pub proof fn lemma_sorted_ordered(t: Tree)
    requires
        sorted(t.inorder()),
    ensures
        t.ordered(),
    decreases t,
{
    match t {
        Tree::Nil => {}
        Tree::Node { key, left, right, .. } => {
            let s = t.inorder();
            let nl = left.inorder().len() as int;
            assert forall|a: int, b: int| 0 <= a < b < left.inorder().len() implies
                left.inorder()[a] < left.inorder()[b] by {
                assert(s[a] == left.inorder()[a]);
                assert(s[b] == left.inorder()[b]);
            }
            assert forall|a: int, b: int| 0 <= a < b < right.inorder().len() implies
                right.inorder()[a] < right.inorder()[b] by {
                assert(s[nl + 1 + a] == right.inorder()[a]);
                assert(s[nl + 1 + b] == right.inorder()[b]);
            }
            lemma_sorted_ordered(*left);
            lemma_sorted_ordered(*right);
            assert forall|m: int| 0 <= m < left.inorder().len() implies left.inorder()[m] < key by {
                assert(s[m] == left.inorder()[m]);
                assert(s[nl] == key);
            }
            assert forall|m: int| 0 <= m < right.inorder().len() implies key < right.inorder()[m] by {
                assert(s[nl] == key);
                assert(s[nl + 1 + m] == right.inorder()[m]);
            }
        }
    }
}

} // verus!
