//! The binary-search-tree engine: an arena of nodes joined by parent and
//! child indices, with every operation proved against the ghost shape of
//! the live tree.

use vstd::prelude::*;

use crate::shape::Tree;
use crate::shape::lemma_ordered_sorted;
use crate::shape::lemma_sorted_ordered;
use crate::shape::lemma_subtree_props;
use crate::shape::lemma_subtree_trans;
use crate::shape::lemma_decompose;
use crate::shape::lemma_replace_absent;
use crate::shape::lemma_replace_inorder;
use crate::shape::lemma_replace_props;
use crate::shape::lemma_replace_subtree_self;
use crate::shape::lemma_ordered_member;
use crate::shape::lemma_leftmost;
use crate::shape::lemma_rightmost;
use crate::shape::lemma_parent_step;
use crate::shape::lemma_parent_rec_indep;
use crate::shape::lemma_parent_trans;
use crate::shape::lemma_parent_outside;
use crate::shape::lemma_leftmost_parent;
use crate::shape::lemma_sorted_remove_at;
use crate::shape::lemma_ctx_child;
use crate::shape::lemma_spec_insert_idxs;
use crate::shape::lemma_spec_insert_inorder;

verus! {

/// One slot of the arena: a key, a back-reference to the parent slot,
/// and the two child slots.  A deleted node keeps its slot but is no
/// longer reachable from the root.
#[derive(Clone, Copy, Debug)]
pub struct NodeRecord {
    pub key: i32,
    pub parent: Option<usize>,
    pub left: Option<usize>,
    pub right: Option<usize>,
}

/// The arena slots agree with the ghost tree `t` hanging under parent
/// slot `p`: every node of `t` stores its key and points at its parent
/// and at the roots of its subtrees.
pub open spec fn links_ok(t: Tree, ns: Seq<NodeRecord>, p: Option<usize>) -> bool
    decreases t,
{
    match t {
        Tree::Nil => true,
        Tree::Node { idx, key, left, right } => idx < ns.len()
            && ns[idx as int].key == key
            && ns[idx as int].parent == p
            && ns[idx as int].left == left.root_idx()
            && ns[idx as int].right == right.root_idx()
            && links_ok(*left, ns, Some(idx))
            && links_ok(*right, ns, Some(idx)),
    }
}

/// Consistent links keep every index of the tree inside the arena.
pub proof fn lemma_links_bound(t: Tree, ns: Seq<NodeRecord>, p: Option<usize>)
    requires
        links_ok(t, ns, p),
    ensures
        forall|m: usize| t.contains_idx(m) ==> m < ns.len(),
    decreases t,
{
    match t {
        Tree::Nil => {}
        Tree::Node { idx, left, right, .. } => {
            lemma_links_bound(*left, ns, Some(idx));
            lemma_links_bound(*right, ns, Some(idx));
            assert forall|m: usize| t.contains_idx(m) implies m < ns.len() by {
                assert(t.contains_idx(m) == (m == idx || left.contains_idx(m)
                    || right.contains_idx(m)));
            }
        }
    }
}

/// Link consistency only reads the slots of the tree's own indices.
pub proof fn lemma_links_frame(t: Tree, ns: Seq<NodeRecord>, ns2: Seq<NodeRecord>, p: Option<usize>)
    requires
        links_ok(t, ns, p),
        forall|m: usize| t.contains_idx(m) ==> m < ns2.len() && ns2[m as int] == ns[m as int],
    ensures
        links_ok(t, ns2, p),
    decreases t,
{
    match t {
        Tree::Nil => {}
        Tree::Node { idx, left, right, .. } => {
            assert forall|m: usize| left.contains_idx(m) implies m < ns2.len()
                && ns2[m as int] == ns[m as int] by {
                assert(t.contains_idx(m));
            }
            assert forall|m: usize| right.contains_idx(m) implies m < ns2.len()
                && ns2[m as int] == ns[m as int] by {
                assert(t.contains_idx(m));
            }
            lemma_links_frame(*left, ns, ns2, Some(idx));
            lemma_links_frame(*right, ns, ns2, Some(idx));
            assert(t.contains_idx(idx));
        }
    }
}

/// A tree may be rehung under a new parent: only the root's parent field
/// has to follow.
pub proof fn lemma_links_reparent(
    t: Tree,
    ns: Seq<NodeRecord>,
    ns2: Seq<NodeRecord>,
    p: Option<usize>,
    p2: Option<usize>,
)
    requires
        links_ok(t, ns, p),
        t.uniq(),
        t is Node,
        forall|m: usize| t.contains_idx(m) ==> m < ns2.len(),
        forall|m: usize| t.contains_idx(m) && Some(m) != t.root_idx()
            ==> ns2[m as int] == ns[m as int],
        ns2[t.root_idx().unwrap() as int].key == ns[t.root_idx().unwrap() as int].key,
        ns2[t.root_idx().unwrap() as int].left == ns[t.root_idx().unwrap() as int].left,
        ns2[t.root_idx().unwrap() as int].right == ns[t.root_idx().unwrap() as int].right,
        ns2[t.root_idx().unwrap() as int].parent == p2,
    ensures
        links_ok(t, ns2, p2),
{
    match t {
        Tree::Nil => {}
        Tree::Node { idx, left, right, .. } => {
            assert forall|m: usize| left.contains_idx(m) implies m < ns2.len()
                && ns2[m as int] == ns[m as int] by {
                assert(t.contains_idx(m));
                assert(m != idx);
            }
            assert forall|m: usize| right.contains_idx(m) implies m < ns2.len()
                && ns2[m as int] == ns[m as int] by {
                assert(t.contains_idx(m));
                assert(m != idx);
            }
            lemma_links_frame(*left, ns, ns2, Some(idx));
            lemma_links_frame(*right, ns, ns2, Some(idx));
            assert(t.contains_idx(idx));
            assert(idx < ns2.len());
            assert(ns2[idx as int].key == ns[idx as int].key);
        }
    }
}

/// The slots of a subtree are linked consistently under the parent the
/// whole tree records for it.
pub proof fn lemma_links_subtree(t: Tree, ns: Seq<NodeRecord>, p: Option<usize>, i: usize)
    requires
        links_ok(t, ns, p),
        t.uniq(),
        t.contains_idx(i),
    ensures
        links_ok(t.subtree_at(i), ns, t.parent_rec(i, p)),
    decreases t,
{
    match t {
        Tree::Nil => {}
        Tree::Node { idx, left, right, .. } => {
            if idx == i {
                assert(t.subtree_at(i) == t);
            } else if left.contains_idx(i) {
                lemma_links_subtree(*left, ns, Some(idx), i);
            } else {
                lemma_links_subtree(*right, ns, Some(idx), i);
            }
        }
    }
}

/// Rewiring one subtree: when the slots of a replacement tree `s` are
/// already linked under the parent of node `i`, the parent's child link
/// has been turned from `i` to `s`'s root, and every other kept slot is
/// untouched, then the arena realises the tree with the subtree at `i`
/// replaced by `s`.
pub proof fn lemma_links_replace(
    t: Tree,
    ns: Seq<NodeRecord>,
    ns2: Seq<NodeRecord>,
    p: Option<usize>,
    i: usize,
    s: Tree,
)
    requires
        links_ok(t, ns, p),
        t.uniq(),
        t.contains_idx(i),
        s.uniq(),
        links_ok(s, ns2, t.parent_rec(i, p)),
        forall|m: usize| s.contains_idx(m) ==> !(t.contains_idx(m)
            && !t.subtree_at(i).contains_idx(m)),
        ns2.len() >= ns.len(),
        forall|m: usize| #[trigger] t.contains_idx(m) && !t.subtree_at(i).contains_idx(m)
            ==> m < ns2.len() && (
            if t.parent_rec(i, p) == Some(m) {
                ns2[m as int].key == ns[m as int].key
                && ns2[m as int].parent == ns[m as int].parent
                && (if ns[m as int].left == Some(i) {
                    ns2[m as int].left == s.root_idx() && ns2[m as int].right == ns[m as int].right
                } else {
                    ns2[m as int].left == ns[m as int].left && ns2[m as int].right == s.root_idx()
                })
            } else {
                ns2[m as int] == ns[m as int]
            }),
    ensures
        links_ok(t.replace_at(i, s), ns2, p),
    decreases t,
{
    match t {
        Tree::Nil => {}
        Tree::Node { idx, key, left, right } => {
            if idx == i {
                assert(t.replace_at(i, s) == s);
            } else if left.contains_idx(i) {
                lemma_subtree_props(*left, i);
                assert(t.subtree_at(i) == left.subtree_at(i));
                assert(t.parent_rec(i, p) == left.parent_rec(i, Some(idx)));
                lemma_parent_step(*left, i, Some(idx));
                lemma_replace_absent(*right, i, s);
                lemma_replace_props(*left, i, s);
                // recurse into the left side
                assert forall|m: usize| s.contains_idx(m) implies !((*left).contains_idx(m)
                    && !(*left).subtree_at(i).contains_idx(m)) by {
                    assert(t.contains_idx(m) == (m == idx || left.contains_idx(m)
                        || right.contains_idx(m)));
                }
                assert forall|m: usize| #[trigger] (*left).contains_idx(m)
                    && !(*left).subtree_at(i).contains_idx(m) implies m < ns2.len() && (
                    if (*left).parent_rec(i, Some(idx)) == Some(m) {
                        ns2[m as int].key == ns[m as int].key
                        && ns2[m as int].parent == ns[m as int].parent
                        && (if ns[m as int].left == Some(i) {
                            ns2[m as int].left == s.root_idx()
                                && ns2[m as int].right == ns[m as int].right
                        } else {
                            ns2[m as int].left == ns[m as int].left
                                && ns2[m as int].right == s.root_idx()
                        })
                    } else {
                        ns2[m as int] == ns[m as int]
                    }) by {
                    assert(t.contains_idx(m));
                }
                lemma_links_replace(*left, ns, ns2, Some(idx), i, s);
                // the root slot
                assert(t.contains_idx(idx));
                assert(!t.subtree_at(i).contains_idx(idx)) by {
                    if t.subtree_at(i).contains_idx(idx) {
                        assert((*left).contains_idx(idx));
                    }
                }
                let lr = left.replace_at(i, s);
                if left.root_idx() == Some(i) {
                    assert(t.parent_rec(i, p) == Some(idx));
                    assert(ns[idx as int].left == Some(i));
                    assert(ns2[idx as int].left == s.root_idx());
                    assert(lr == s);
                } else {
                    let q = left.parent_rec(i, Some(idx)).unwrap();
                    assert((*left).contains_idx(q));
                    assert(q != idx);
                    assert(t.parent_rec(i, p) != Some(idx));
                    assert(ns2[idx as int] == ns[idx as int]);
                    assert(lr.root_idx() == left.root_idx());
                }
                // the untouched right side
                assert forall|m: usize| right.contains_idx(m) implies m < ns2.len()
                    && ns2[m as int] == ns[m as int] by {
                    assert(t.contains_idx(m));
                    assert(!t.subtree_at(i).contains_idx(m)) by {
                        assert(forall|w: usize| t.subtree_at(i).contains_idx(w)
                            ==> (*left).contains_idx(w));
                    }
                    if t.parent_rec(i, p) == Some(m) {
                        assert((*left).contains_idx(m) || m == idx);
                    }
                }
                lemma_links_frame(*right, ns, ns2, Some(idx));
                assert(t.replace_at(i, s) == Tree::Node {
                    idx,
                    key,
                    left: Box::new(lr),
                    right: Box::new(right.replace_at(i, s)),
                });
            } else {
                lemma_subtree_props(*right, i);
                assert(t.subtree_at(i) == right.subtree_at(i));
                assert(t.parent_rec(i, p) == right.parent_rec(i, Some(idx)));
                lemma_parent_step(*right, i, Some(idx));
                lemma_replace_absent(*left, i, s);
                lemma_replace_props(*right, i, s);
                assert forall|m: usize| s.contains_idx(m) implies !((*right).contains_idx(m)
                    && !(*right).subtree_at(i).contains_idx(m)) by {
                    assert(t.contains_idx(m) == (m == idx || left.contains_idx(m)
                        || right.contains_idx(m)));
                }
                assert forall|m: usize| #[trigger] (*right).contains_idx(m)
                    && !(*right).subtree_at(i).contains_idx(m) implies m < ns2.len() && (
                    if (*right).parent_rec(i, Some(idx)) == Some(m) {
                        ns2[m as int].key == ns[m as int].key
                        && ns2[m as int].parent == ns[m as int].parent
                        && (if ns[m as int].left == Some(i) {
                            ns2[m as int].left == s.root_idx()
                                && ns2[m as int].right == ns[m as int].right
                        } else {
                            ns2[m as int].left == ns[m as int].left
                                && ns2[m as int].right == s.root_idx()
                        })
                    } else {
                        ns2[m as int] == ns[m as int]
                    }) by {
                    assert(t.contains_idx(m));
                }
                lemma_links_replace(*right, ns, ns2, Some(idx), i, s);
                assert(t.contains_idx(idx));
                assert(!t.subtree_at(i).contains_idx(idx)) by {
                    if t.subtree_at(i).contains_idx(idx) {
                        assert((*right).contains_idx(idx));
                    }
                }
                let rr = right.replace_at(i, s);
                if right.root_idx() == Some(i) {
                    assert(t.parent_rec(i, p) == Some(idx));
                    assert(ns[idx as int].right == Some(i));
                    assert(ns[idx as int].left != Some(i)) by {
                        if ns[idx as int].left == Some(i) {
                            assert(left.root_idx() == Some(i));
                            assert((*left).contains_idx(i));
                        }
                    }
                    assert(ns2[idx as int].right == s.root_idx());
                    assert(rr == s);
                } else {
                    let q = right.parent_rec(i, Some(idx)).unwrap();
                    assert((*right).contains_idx(q));
                    assert(q != idx);
                    assert(t.parent_rec(i, p) != Some(idx));
                    assert(ns2[idx as int] == ns[idx as int]);
                    assert(rr.root_idx() == right.root_idx());
                }
                assert forall|m: usize| left.contains_idx(m) implies m < ns2.len()
                    && ns2[m as int] == ns[m as int] by {
                    assert(t.contains_idx(m));
                    assert(!t.subtree_at(i).contains_idx(m)) by {
                        assert(forall|w: usize| t.subtree_at(i).contains_idx(w)
                            ==> (*right).contains_idx(w));
                    }
                    if t.parent_rec(i, p) == Some(m) {
                        assert((*right).contains_idx(m) || m == idx);
                    }
                }
                lemma_links_frame(*left, ns, ns2, Some(idx));
                assert(t.replace_at(i, s) == Tree::Node {
                    idx,
                    key,
                    left: Box::new(left.replace_at(i, s)),
                    right: Box::new(rr),
                });
            }
        }
    }
}

/// The tree of nodes, addressed by slot handles: the arena of records
/// plus the index of the current root.  The ghost shape records which
/// slots form the live tree.
pub struct BstNode {
    nodes: Vec<NodeRecord>,
    root: Option<usize>,
    shape: Ghost<Tree>,
}

impl BstNode {
    /// The ghost shape of the live tree.
    pub closed spec fn shape(self) -> Tree {
        self.shape@
    }

    /// Structural soundness: the arena links realise the ghost shape, no
    /// slot appears twice in it, and the stored root is its root.
    pub closed spec fn wf(self) -> bool {
        &&& links_ok(self.shape@, self.nodes@, None)
        &&& self.shape@.uniq()
        &&& self.root == self.shape@.root_idx()
    }

    /// The in-order traversal of the live tree's keys.
    pub open spec fn inorder(self) -> Seq<i32> {
        self.shape().inorder()
    }

    /// The binary-search-tree ordering of the live tree.
    pub open spec fn ordered(self) -> bool {
        self.shape().ordered()
    }

    /// Whether the slot `i` is part of the live tree.
    pub open spec fn has(self, i: usize) -> bool {
        self.shape().contains_idx(i)
    }

    /// The key stored in live slot `i`.
    pub open spec fn key_at(self, i: usize) -> i32 {
        self.shape().key_at(i)
    }

    /// The left child of live slot `i`.
    pub open spec fn left_of(self, i: usize) -> Option<usize> {
        self.shape().left_of(i)
    }

    /// The right child of live slot `i`.
    pub open spec fn right_of(self, i: usize) -> Option<usize> {
        self.shape().right_of(i)
    }

    /// The parent of live slot `i`; `None` for the root.
    pub open spec fn parent_of(self, i: usize) -> Option<usize> {
        self.shape().parent_of(i)
    }

    /// The root slot of the live tree.
    pub open spec fn root_of(self) -> Option<usize> {
        self.shape().root_idx()
    }

    /// Builds a fresh one-node tree holding `value`; the node becomes the
    /// root and is handed out as slot `0`.
    pub fn new_bst_nodelink(value: i32) -> (t: BstNode)
        ensures
            t.wf(),
            t.ordered(),
            t.inorder() == seq![value],
            t.root_of() == Some(0usize),
            t.has(0) && t.key_at(0) == value,
    {
        let mut nodes: Vec<NodeRecord> = Vec::new();
        nodes.push(NodeRecord { key: value, parent: None, left: None, right: None });
        let t = BstNode {
            nodes,
            root: Some(0),
            shape: Ghost(
                Tree::Node {
                    idx: 0,
                    key: value,
                    left: Box::new(Tree::Nil),
                    right: Box::new(Tree::Nil),
                },
            ),
        };
        proof {
            let sh = t.shape@;
            assert(sh == Tree::Node {
                idx: 0usize,
                key: value,
                left: Box::new(Tree::Nil),
                right: Box::new(Tree::Nil),
            });
            assert(Tree::Nil.inorder() == Seq::<i32>::empty());
            assert(Tree::Nil.uniq());
            assert(forall|m: usize| !Tree::Nil.contains_idx(m));
            assert(Tree::Nil.ordered());
            assert(t.nodes@.len() == 1);
            assert(t.nodes@[0] == NodeRecord { key: value, parent: None, left: None, right: None });
            assert(links_ok(Tree::Nil, t.nodes@, Some(0usize)));
            assert(links_ok(sh, t.nodes@, None));
            assert(sh.inorder() =~= seq![value]);
            assert(sh.subtree_at(0) == sh);
        }
        t
    }

    /// The facts the engine reads off a live slot: the record agrees with
    /// the subtree rooted there.
    proof fn lemma_at(self, i: usize)
        requires
            self.wf(),
            self.has(i),
        ensures
            i < self.nodes@.len(),
            self.shape@.subtree_at(i).root_idx() == Some(i),
            self.shape@.subtree_at(i).uniq(),
            self.shape@.subtree_at(i) is Node,
            links_ok(self.shape@.subtree_at(i), self.nodes@, self.shape@.parent_rec(i, None)),
            self.nodes@[i as int].key == self.key_at(i),
            self.nodes@[i as int].left == self.left_of(i),
            self.nodes@[i as int].right == self.right_of(i),
            self.nodes@[i as int].parent == self.parent_of(i),
            self.shape@.ordered() ==> self.shape@.subtree_at(i).ordered(),
            self.key_at(i) == self.shape@.subtree_at(i).key_at(i),
            forall|m: usize| self.shape@.subtree_at(i).contains_idx(m) ==> self.has(m),
    {
        lemma_links_bound(self.shape@, self.nodes@, None);
        lemma_links_subtree(self.shape@, self.nodes@, None, i);
        lemma_subtree_props(self.shape@, i);
        let sub = self.shape@.subtree_at(i);
        assert(sub.subtree_at(i) == sub);
    }

    /// A copy of the record in live slot `i`: its key and its links as
    /// plain values.
    pub fn get_bst_nodelink_copy(&self, i: usize) -> (n: NodeRecord)
        requires
            self.wf(),
            self.has(i),
        ensures
            n.key == self.key_at(i),
            n.left == self.left_of(i),
            n.right == self.right_of(i),
            n.parent == self.parent_of(i),
    {
        proof {
            self.lemma_at(i);
        }
        self.nodes[i]
    }

    /// Looks `value` up in the subtree rooted at live slot `i`: a handle
    /// to the node holding it, or nothing when the subtree misses it.
    pub fn tree_search(&self, i: usize, value: i32) -> (r: Option<usize>)
        requires
            self.wf(),
            self.has(i),
            self.shape().subtree_at(i).ordered(),
        ensures
            (r is Some) == self.shape().subtree_at(i).inorder().contains(value),
            r matches Some(m) ==> self.shape().subtree_at(i).contains_idx(m) && self.has(m)
                && self.key_at(m) == value,
        decreases self.shape().subtree_at(i),
    {
        proof {
            self.lemma_at(i);
            lemma_ctx_child(self.shape@, i);
            lemma_ordered_member(self.shape@.subtree_at(i), value);
        }
        let ghost sub = self.shape@.subtree_at(i);
        let nd = self.nodes[i];
        if value == nd.key {
            proof {
                match sub {
                    Tree::Nil => {}
                    Tree::Node { key, left, .. } => {
                        assert(sub.inorder()[left.inorder().len() as int] == key);
                        assert(sub.inorder().contains(value));
                    }
                }
            }
            Some(i)
        } else if value < nd.key {
            match nd.left {
                Some(l) => {
                    proof {
                        match sub {
                            Tree::Nil => {}
                            Tree::Node { left, .. } => {
                                assert(self.shape@.subtree_at(l) == *left);
                            }
                        }
                    }
                    let r = self.tree_search(l, value);
                    proof {
                        if r is Some {
                            let m = r.unwrap();
                            assert(sub.contains_idx(m));
                        }
                    }
                    r
                }
                None => {
                    proof {
                        match sub {
                            Tree::Nil => {}
                            Tree::Node { left, .. } => {
                                assert((*left).inorder() =~= Seq::<i32>::empty());
                            }
                        }
                    }
                    None
                }
            }
        } else {
            match nd.right {
                Some(rr) => {
                    proof {
                        match sub {
                            Tree::Nil => {}
                            Tree::Node { right, .. } => {
                                assert(self.shape@.subtree_at(rr) == *right);
                            }
                        }
                    }
                    let r = self.tree_search(rr, value);
                    proof {
                        if r is Some {
                            let m = r.unwrap();
                            assert(sub.contains_idx(m));
                        }
                    }
                    r
                }
                None => {
                    proof {
                        match sub {
                            Tree::Nil => {}
                            Tree::Node { right, .. } => {
                                assert((*right).inorder() =~= Seq::<i32>::empty());
                            }
                        }
                    }
                    None
                }
            }
        }
    }

    /// The same lookup, descending right whenever the key is not smaller
    /// or the left side is missing; on an ordered subtree it finds
    /// exactly the same nodes as `tree_search`.
    pub fn tree_search_correct(&self, i: usize, value: i32) -> (r: Option<usize>)
        requires
            self.wf(),
            self.has(i),
            self.shape().subtree_at(i).ordered(),
        ensures
            (r is Some) == self.shape().subtree_at(i).inorder().contains(value),
            r matches Some(m) ==> self.shape().subtree_at(i).contains_idx(m) && self.has(m)
                && self.key_at(m) == value,
        decreases self.shape().subtree_at(i),
    {
        proof {
            self.lemma_at(i);
            lemma_ctx_child(self.shape@, i);
            lemma_ordered_member(self.shape@.subtree_at(i), value);
        }
        let ghost sub = self.shape@.subtree_at(i);
        let nd = self.nodes[i];
        if value == nd.key {
            proof {
                match sub {
                    Tree::Nil => {}
                    Tree::Node { key, left, .. } => {
                        assert(sub.inorder()[left.inorder().len() as int] == key);
                        assert(sub.inorder().contains(value));
                    }
                }
            }
            return Some(i);
        }
        if value < nd.key && nd.left.is_some() {
            let l = nd.left.unwrap();
            proof {
                match sub {
                    Tree::Nil => {}
                    Tree::Node { left, .. } => {
                        assert(self.shape@.subtree_at(l) == *left);
                    }
                }
            }
            let r = self.tree_search_correct(l, value);
            proof {
                if r is Some {
                    assert(sub.contains_idx(r.unwrap()));
                }
            }
            r
        } else if nd.right.is_some() {
            let rr = nd.right.unwrap();
            proof {
                match sub {
                    Tree::Nil => {}
                    Tree::Node { left, right, .. } => {
                        assert(self.shape@.subtree_at(rr) == *right);
                        if value < nd.key {
                            assert((*left) is Nil);
                            assert((*left).inorder() =~= Seq::<i32>::empty());
                            assert(forall|m: int| 0 <= m < (*right).inorder().len()
                                ==> nd.key < (*right).inorder()[m]);
                        }
                    }
                }
            }
            let r = self.tree_search_correct(rr, value);
            proof {
                if r is Some {
                    assert(sub.contains_idx(r.unwrap()));
                }
                if value < nd.key {
                    match sub {
                        Tree::Nil => {}
                        Tree::Node { right, .. } => {
                            if (*right).inorder().contains(value) {
                                let c = choose|c: int| 0 <= c < (*right).inorder().len()
                                    && (*right).inorder()[c] == value;
                                assert(nd.key < (*right).inorder()[c]);
                            }
                        }
                    }
                }
            }
            r
        } else {
            proof {
                match sub {
                    Tree::Nil => {}
                    Tree::Node { left, right, .. } => {
                        if value < nd.key {
                            assert((*left).inorder() =~= Seq::<i32>::empty());
                        } else {
                            assert((*right).inorder() =~= Seq::<i32>::empty());
                        }
                    }
                }
            }
            None
        }
    }

    /// The node with the smallest key of the subtree rooted at live slot
    /// `i`: the leftmost node, found by following left links.
    pub fn minimum(&self, i: usize) -> (r: usize)
        requires
            self.wf(),
            self.has(i),
        ensures
            r == self.shape().subtree_at(i).leftmost(),
            self.has(r),
            self.shape().subtree_at(i).contains_idx(r),
            self.left_of(r) is None,
            self.shape().subtree_at(i).ordered() ==> (
                self.shape().subtree_at(i).inorder().len() > 0
                && self.key_at(r) == self.shape().subtree_at(i).inorder()[0]
                && forall|m: int| 0 <= m < self.shape().subtree_at(i).inorder().len()
                    ==> self.key_at(r) <= self.shape().subtree_at(i).inorder()[m]
            ),
    {
        let ghost whole = self.shape@.subtree_at(i);
        let mut cur: usize = i;
        proof {
            self.lemma_at(i);
        }
        loop
            invariant
                self.wf(),
                self.has(i),
                self.has(cur),
                whole == self.shape@.subtree_at(i),
                whole.contains_idx(cur),
                self.shape@.subtree_at(cur).leftmost() == whole.leftmost(),
            ensures
                self.has(cur),
                cur == whole.leftmost(),
            decreases self.shape@.subtree_at(cur),
        {
            proof {
                self.lemma_at(cur);
                lemma_ctx_child(self.shape@, cur);
                lemma_subtree_props(self.shape@, i);
                lemma_subtree_trans(self.shape@, i, cur);
            }
            let nd = self.nodes[cur];
            match nd.left {
                Some(l) => {
                    proof {
                        match self.shape@.subtree_at(cur) {
                            Tree::Nil => {}
                            Tree::Node { left, .. } => {
                                assert(self.shape@.subtree_at(l) == *left);
                                assert(self.shape@.subtree_at(cur).leftmost() == (*left).leftmost());
                                assert((*left).contains_idx(l));
                                assert(whole.subtree_at(cur).contains_idx(l));
                                lemma_subtree_trans(whole, cur, l);
                            }
                        }
                    }
                    cur = l;
                }
                None => {
                    proof {
                        assert(self.shape@.subtree_at(cur).leftmost() == cur);
                    }
                    break;
                }
            }
        }
        proof {
            if whole.ordered() {
                lemma_leftmost(whole);
                lemma_subtree_trans(self.shape@, i, whole.leftmost());
                lemma_ordered_sorted(whole);
                assert(self.key_at(cur) == whole.key_at(cur)) by {
                    lemma_subtree_props(self.shape@, i);
                    lemma_subtree_props(whole, cur);
                }
                assert(forall|m: int| 0 < m < whole.inorder().len()
                    ==> whole.inorder()[0] < #[trigger] whole.inorder()[m]);
            } else {
                lemma_leftmost(whole);
                lemma_subtree_trans(self.shape@, i, whole.leftmost());
            }
        }
        cur
    }

    /// The same smallest-key lookup, by recursion on the left spine.
    pub fn minimum_correct(&self, i: usize) -> (r: usize)
        requires
            self.wf(),
            self.has(i),
        ensures
            r == self.shape().subtree_at(i).leftmost(),
            self.has(r),
            self.shape().subtree_at(i).contains_idx(r),
            self.left_of(r) is None,
            self.shape().subtree_at(i).ordered() ==> (
                self.shape().subtree_at(i).inorder().len() > 0
                && self.key_at(r) == self.shape().subtree_at(i).inorder()[0]
                && forall|m: int| 0 <= m < self.shape().subtree_at(i).inorder().len()
                    ==> self.key_at(r) <= self.shape().subtree_at(i).inorder()[m]
            ),
        decreases self.shape().subtree_at(i),
    {
        proof {
            self.lemma_at(i);
            lemma_ctx_child(self.shape@, i);
        }
        let ghost sub = self.shape@.subtree_at(i);
        let nd = self.nodes[i];
        match nd.left {
            Some(l) => {
                proof {
                    match sub {
                        Tree::Nil => {}
                        Tree::Node { left, .. } => {
                            assert(self.shape@.subtree_at(l) == *left);
                            assert(sub.leftmost() == (*left).leftmost());
                        }
                    }
                }
                let r = self.minimum_correct(l);
                proof {
                    lemma_subtree_props(self.shape@, i);
                    match sub {
                        Tree::Nil => {}
                        Tree::Node { left, .. } => {
                            assert(sub.contains_idx(r));
                            if sub.ordered() {
                                lemma_leftmost(sub);
                                lemma_ordered_sorted(sub);
                                assert(forall|m: int| 0 < m < sub.inorder().len()
                                    ==> sub.inorder()[0] < #[trigger] sub.inorder()[m]);
                            }
                        }
                    }
                }
                r
            }
            None => {
                proof {
                    assert(sub.leftmost() == i);
                    if sub.ordered() {
                        lemma_leftmost(sub);
                        lemma_ordered_sorted(sub);
                        assert(forall|m: int| 0 < m < sub.inorder().len()
                            ==> sub.inorder()[0] < #[trigger] sub.inorder()[m]);
                    }
                }
                i
            }
        }
    }

    /// The node with the largest key of the subtree rooted at live slot
    /// `i`: the rightmost node, found by following right links.
    pub fn maximum(&self, i: usize) -> (r: usize)
        requires
            self.wf(),
            self.has(i),
        ensures
            r == self.shape().subtree_at(i).rightmost(),
            self.has(r),
            self.shape().subtree_at(i).contains_idx(r),
            self.right_of(r) is None,
            self.shape().subtree_at(i).ordered() ==> (
                self.shape().subtree_at(i).inorder().len() > 0
                && self.key_at(r) == self.shape().subtree_at(i).inorder()[
                    self.shape().subtree_at(i).inorder().len() - 1]
                && forall|m: int| 0 <= m < self.shape().subtree_at(i).inorder().len()
                    ==> self.shape().subtree_at(i).inorder()[m] <= self.key_at(r)
            ),
    {
        let ghost whole = self.shape@.subtree_at(i);
        let mut cur: usize = i;
        proof {
            self.lemma_at(i);
        }
        loop
            invariant
                self.wf(),
                self.has(i),
                self.has(cur),
                whole == self.shape@.subtree_at(i),
                whole.contains_idx(cur),
                self.shape@.subtree_at(cur).rightmost() == whole.rightmost(),
            ensures
                self.has(cur),
                cur == whole.rightmost(),
            decreases self.shape@.subtree_at(cur),
        {
            proof {
                self.lemma_at(cur);
                lemma_ctx_child(self.shape@, cur);
                lemma_subtree_props(self.shape@, i);
                lemma_subtree_trans(self.shape@, i, cur);
            }
            let nd = self.nodes[cur];
            match nd.right {
                Some(rr) => {
                    proof {
                        match self.shape@.subtree_at(cur) {
                            Tree::Nil => {}
                            Tree::Node { right, .. } => {
                                assert(self.shape@.subtree_at(rr) == *right);
                                assert(self.shape@.subtree_at(cur).rightmost() == (*right).rightmost());
                                assert((*right).contains_idx(rr));
                                assert(whole.subtree_at(cur).contains_idx(rr));
                                lemma_subtree_trans(whole, cur, rr);
                            }
                        }
                    }
                    cur = rr;
                }
                None => {
                    proof {
                        assert(self.shape@.subtree_at(cur).rightmost() == cur);
                    }
                    break;
                }
            }
        }
        proof {
            lemma_rightmost(whole);
            lemma_subtree_trans(self.shape@, i, whole.rightmost());
            if whole.ordered() {
                lemma_ordered_sorted(whole);
                assert(self.key_at(cur) == whole.key_at(cur)) by {
                    lemma_subtree_props(self.shape@, i);
                    lemma_subtree_props(whole, cur);
                }
                assert(forall|m: int| 0 <= m < whole.inorder().len() - 1
                    ==> #[trigger] whole.inorder()[m] < whole.inorder()[whole.inorder().len() - 1]);
            }
        }
        cur
    }

    /// The same largest-key lookup, by recursion on the right spine.
    pub fn maximum_correct(&self, i: usize) -> (r: usize)
        requires
            self.wf(),
            self.has(i),
        ensures
            r == self.shape().subtree_at(i).rightmost(),
            self.has(r),
            self.shape().subtree_at(i).contains_idx(r),
            self.right_of(r) is None,
            self.shape().subtree_at(i).ordered() ==> (
                self.shape().subtree_at(i).inorder().len() > 0
                && self.key_at(r) == self.shape().subtree_at(i).inorder()[
                    self.shape().subtree_at(i).inorder().len() - 1]
                && forall|m: int| 0 <= m < self.shape().subtree_at(i).inorder().len()
                    ==> self.shape().subtree_at(i).inorder()[m] <= self.key_at(r)
            ),
        decreases self.shape().subtree_at(i),
    {
        proof {
            self.lemma_at(i);
            lemma_ctx_child(self.shape@, i);
        }
        let ghost sub = self.shape@.subtree_at(i);
        let nd = self.nodes[i];
        match nd.right {
            Some(rr) => {
                proof {
                    match sub {
                        Tree::Nil => {}
                        Tree::Node { right, .. } => {
                            assert(self.shape@.subtree_at(rr) == *right);
                            assert(sub.rightmost() == (*right).rightmost());
                        }
                    }
                }
                let r = self.maximum_correct(rr);
                proof {
                    lemma_subtree_props(self.shape@, i);
                    match sub {
                        Tree::Nil => {}
                        Tree::Node { right, .. } => {
                            assert(sub.contains_idx(r));
                            if sub.ordered() {
                                lemma_rightmost(sub);
                                lemma_ordered_sorted(sub);
                                assert(forall|m: int| 0 <= m < sub.inorder().len() - 1
                                    ==> #[trigger] sub.inorder()[m] < sub.inorder()[sub.inorder().len() - 1]);
                            }
                        }
                    }
                }
                r
            }
            None => {
                proof {
                    assert(sub.rightmost() == i);
                    if sub.ordered() {
                        lemma_rightmost(sub);
                        lemma_ordered_sorted(sub);
                        assert(forall|m: int| 0 <= m < sub.inorder().len() - 1
                            ==> #[trigger] sub.inorder()[m] < sub.inorder()[sub.inorder().len() - 1]);
                    }
                }
                i
            }
        }
    }

    /// Appends the in-order keys of the subtree rooted at live slot `i`.
    fn collect_inorder(&self, i: usize, v: &mut Vec<i32>)
        requires
            self.wf(),
            self.has(i),
        ensures
            final(v)@ == old(v)@ + self.shape().subtree_at(i).inorder(),
        decreases self.shape().subtree_at(i),
    {
        proof {
            self.lemma_at(i);
            lemma_ctx_child(self.shape@, i);
        }
        let ghost sub = self.shape@.subtree_at(i);
        let nd = self.nodes[i];
        match nd.left {
            Some(l) => {
                proof {
                    match sub {
                        Tree::Nil => {}
                        Tree::Node { left, .. } => {
                            assert(self.shape@.subtree_at(l) == *left);
                        }
                    }
                }
                self.collect_inorder(l, v);
            }
            None => {}
        }
        v.push(nd.key);
        match nd.right {
            Some(rr) => {
                proof {
                    match sub {
                        Tree::Nil => {}
                        Tree::Node { right, .. } => {
                            assert(self.shape@.subtree_at(rr) == *right);
                        }
                    }
                }
                self.collect_inorder(rr, v);
            }
            None => {}
        }
        proof {
            match sub {
                Tree::Nil => {}
                Tree::Node { left, right, .. } => {
                    if nd.left is None {
                        assert((*left).inorder() =~= Seq::<i32>::empty());
                    }
                    if nd.right is None {
                        assert((*right).inorder() =~= Seq::<i32>::empty());
                    }
                    assert(v@ =~= old(v)@ + sub.inorder());
                }
            }
        }
    }

    /// Grows the arena by a node holding `key` and hangs it below the
    /// correct leaf of the tree `t` rooted at slot `i`, leaving every
    /// slot outside `t` untouched.
    fn insert_at(&mut self, i: usize, key: i32, Ghost(t): Ghost<Tree>, Ghost(p): Ghost<Option<usize>>) -> (j: usize)
        requires
            links_ok(t, old(self).nodes@, p),
            t.uniq(),
            t.ordered(),
            t.root_idx() == Some(i),
            !t.inorder().contains(key),
            forall|m: usize| t.contains_idx(m) ==> m < old(self).nodes@.len(),
        ensures
            j == old(self).nodes@.len(),
            final(self).nodes@.len() == old(self).nodes@.len() + 1,
            forall|m: int| 0 <= m < old(self).nodes@.len() && !t.contains_idx(m as usize)
                ==> final(self).nodes@[m] == old(self).nodes@[m],
            links_ok(t.spec_insert(key, j), final(self).nodes@, p),
            final(self).root == old(self).root,
            final(self).shape@ == old(self).shape@,
        decreases t,
    {
        let ghost ns0 = self.nodes@;
        let nd = self.nodes[i];
        proof {
            match t {
                Tree::Nil => {}
                Tree::Node { left, right, .. } => {
                    assert(t.inorder()[left.inorder().len() as int] == nd.key);
                    assert(t.inorder().contains(nd.key));
                }
            }
            assert(key != nd.key);
        }
        if key < nd.key {
            match nd.left {
                Some(l) => {
                    proof {
                        match t {
                            Tree::Nil => {}
                            Tree::Node { left, .. } => {
                                assert(!(*left).inorder().contains(key)) by {
                                    if (*left).inorder().contains(key) {
                                        let c = choose|c: int| 0 <= c < (*left).inorder().len()
                                            && (*left).inorder()[c] == key;
                                        assert(t.inorder()[c] == key);
                                        assert(t.inorder().contains(key));
                                    }
                                }
                                assert forall|m: usize| (*left).contains_idx(m)
                                    implies m < self.nodes@.len() by {
                                    assert(t.contains_idx(m));
                                }
                            }
                        }
                    }
                    let ghost tl = (match t {
                        Tree::Nil => Tree::Nil,
                        Tree::Node { left, .. } => *left,
                    });
                    let j = self.insert_at(l, key, Ghost(tl), Ghost(Some(i)));
                    proof {
                        match t {
                            Tree::Nil => {}
                            Tree::Node { idx, key: tk, left, right } => {
                                lemma_spec_insert_idxs(*left, key, j);
                                assert forall|m: usize| right.contains_idx(m)
                                    implies m < self.nodes@.len()
                                        && self.nodes@[m as int] == ns0[m as int] by {
                                    assert(t.contains_idx(m));
                                    assert(!left.contains_idx(m));
                                }
                                lemma_links_frame(*right, ns0, self.nodes@, Some(idx));
                                assert(!left.contains_idx(idx));
                                assert(self.nodes@[idx as int] == ns0[idx as int]);
                                assert(t.spec_insert(key, j) == Tree::Node {
                                    idx,
                                    key: tk,
                                    left: Box::new(left.spec_insert(key, j)),
                                    right,
                                });
                            }
                        }
                    }
                    j
                }
                None => {
                    let j = self.nodes.len();
                    self.nodes.push(NodeRecord { key, parent: Some(i), left: None, right: None });
                    self.nodes[i].left = Some(j);
                    proof {
                        match t {
                            Tree::Nil => {}
                            Tree::Node { idx, key: tk, left, right } => {
                                assert((*left) is Nil);
                                let leaf = Tree::Node {
                                    idx: j,
                                    key,
                                    left: Box::new(Tree::Nil),
                                    right: Box::new(Tree::Nil),
                                };
                                assert((*left).spec_insert(key, j) == leaf);
                                assert(t.spec_insert(key, j) == Tree::Node {
                                    idx,
                                    key: tk,
                                    left: Box::new(leaf),
                                    right,
                                });
                                assert(links_ok(Tree::Nil, self.nodes@, Some(j)));
                                assert(self.nodes@[j as int] == NodeRecord {
                                    key,
                                    parent: Some(i),
                                    left: None,
                                    right: None,
                                });
                                assert(links_ok(leaf, self.nodes@, Some(i)));
                                assert forall|m: usize| right.contains_idx(m)
                                    implies m < self.nodes@.len()
                                        && self.nodes@[m as int] == ns0[m as int] by {
                                    assert(t.contains_idx(m));
                                    assert(m != idx && m != j);
                                }
                                lemma_links_frame(*right, ns0, self.nodes@, Some(idx));
                            }
                        }
                    }
                    j
                }
            }
        } else {
            proof {
                assert(key > nd.key);
            }
            match nd.right {
                Some(rr) => {
                    proof {
                        match t {
                            Tree::Nil => {}
                            Tree::Node { left, right, .. } => {
                                assert(!(*right).inorder().contains(key)) by {
                                    if (*right).inorder().contains(key) {
                                        let c = choose|c: int| 0 <= c < (*right).inorder().len()
                                            && (*right).inorder()[c] == key;
                                        assert(t.inorder()[left.inorder().len() + 1 + c] == key);
                                        assert(t.inorder().contains(key));
                                    }
                                }
                                assert forall|m: usize| (*right).contains_idx(m)
                                    implies m < self.nodes@.len() by {
                                    assert(t.contains_idx(m));
                                }
                            }
                        }
                    }
                    let ghost tr = (match t {
                        Tree::Nil => Tree::Nil,
                        Tree::Node { right, .. } => *right,
                    });
                    let j = self.insert_at(rr, key, Ghost(tr), Ghost(Some(i)));
                    proof {
                        match t {
                            Tree::Nil => {}
                            Tree::Node { idx, key: tk, left, right } => {
                                lemma_spec_insert_idxs(*right, key, j);
                                assert forall|m: usize| left.contains_idx(m)
                                    implies m < self.nodes@.len()
                                        && self.nodes@[m as int] == ns0[m as int] by {
                                    assert(t.contains_idx(m));
                                    assert(!right.contains_idx(m));
                                }
                                lemma_links_frame(*left, ns0, self.nodes@, Some(idx));
                                assert(!right.contains_idx(idx));
                                assert(self.nodes@[idx as int] == ns0[idx as int]);
                                assert(t.spec_insert(key, j) == Tree::Node {
                                    idx,
                                    key: tk,
                                    left,
                                    right: Box::new(right.spec_insert(key, j)),
                                });
                            }
                        }
                    }
                    j
                }
                None => {
                    let j = self.nodes.len();
                    self.nodes.push(NodeRecord { key, parent: Some(i), left: None, right: None });
                    self.nodes[i].right = Some(j);
                    proof {
                        match t {
                            Tree::Nil => {}
                            Tree::Node { idx, key: tk, left, right } => {
                                assert((*right) is Nil);
                                let leaf = Tree::Node {
                                    idx: j,
                                    key,
                                    left: Box::new(Tree::Nil),
                                    right: Box::new(Tree::Nil),
                                };
                                assert((*right).spec_insert(key, j) == leaf);
                                assert(t.spec_insert(key, j) == Tree::Node {
                                    idx,
                                    key: tk,
                                    left,
                                    right: Box::new(leaf),
                                });
                                assert(links_ok(Tree::Nil, self.nodes@, Some(j)));
                                assert(self.nodes@[j as int] == NodeRecord {
                                    key,
                                    parent: Some(i),
                                    left: None,
                                    right: None,
                                });
                                assert(links_ok(leaf, self.nodes@, Some(i)));
                                assert forall|m: usize| left.contains_idx(m)
                                    implies m < self.nodes@.len()
                                        && self.nodes@[m as int] == ns0[m as int] by {
                                    assert(t.contains_idx(m));
                                    assert(m != idx && m != j);
                                }
                                lemma_links_frame(*left, ns0, self.nodes@, Some(idx));
                            }
                        }
                    }
                    j
                }
            }
        }
    }

    /// Inserts `key` into the live tree.  A duplicate key is rejected and
    /// the tree left unchanged; otherwise the new node's slot is handed
    /// back, the traversal gains exactly `key` at its sorted position,
    /// and the ordering is preserved.
    #[verifier::rlimit(50)]
    pub fn tree_insert(&mut self, key: i32) -> (r: Option<usize>)
        requires
            old(self).wf(),
            old(self).ordered(),
        ensures
            final(self).wf(),
            final(self).ordered(),
            (r is Some) == !old(self).inorder().contains(key),
            old(self).inorder().contains(key) ==> *final(self) == *old(self),
            r matches Some(j) ==> {
                &&& final(self).shape() == old(self).shape().spec_insert(key, j)
                &&& !old(self).has(j)
                &&& final(self).has(j)
                &&& final(self).key_at(j) == key
            },
            r is Some ==> final(self).inorder().contains(key),
            r is Some ==> final(self).inorder().len() == old(self).inorder().len() + 1,
            r is Some ==> forall|v: i32| #[trigger] final(self).inorder().contains(v)
                <==> (old(self).inorder().contains(v) || v == key),
    {
        let ghost t0 = self.shape@;
        match self.root {
            None => {
                proof {
                    assert(t0 is Nil);
                    assert(t0.inorder() =~= Seq::<i32>::empty());
                }
                let j = self.nodes.len();
                self.nodes.push(NodeRecord { key, parent: None, left: None, right: None });
                self.root = Some(j);
                self.shape = Ghost(t0.spec_insert(key, j));
                proof {
                    lemma_spec_insert_idxs(t0, key, j);
                    lemma_spec_insert_inorder(t0, key, j);
                    assert(links_ok(Tree::Nil, self.nodes@, Some(j)));
                    assert(links_ok(self.shape@, self.nodes@, None));
                    assert(self.wf());
                    assert(self.shape@ == t0.spec_insert(key, j));
                    assert(self.shape@.ordered());
                    assert(!t0.contains_idx(j));
                    assert(self.shape@.contains_idx(j));
                    assert(self.shape@.key_at(j) == key);
                    assert(self.shape@.inorder().contains(key));
                }
                Some(j)
            }
            Some(ri) => {
                proof {
                    assert(t0.contains_idx(ri));
                    assert(t0.subtree_at(ri) == t0);
                }
                if self.tree_search_correct(ri, key).is_some() {
                    return None;
                }
                proof {
                    lemma_links_bound(t0, self.nodes@, None);
                }
                let j = self.insert_at(ri, key, Ghost(t0), Ghost(None));
                self.shape = Ghost(t0.spec_insert(key, j));
                proof {
                    lemma_spec_insert_idxs(t0, key, j);
                    lemma_spec_insert_inorder(t0, key, j);
                    assert(self.wf());
                    assert(self.shape@ == t0.spec_insert(key, j));
                    assert(self.shape@.ordered());
                    assert(!t0.contains_idx(j));
                    assert(self.shape@.contains_idx(j));
                    assert(self.shape@.key_at(j) == key);
                    assert(self.shape@.inorder().contains(key));
                }
                Some(j)
            }
        }
    }

    /// Climbs the parent links from live slot `i` up to the root of the
    /// tree and returns it; `i` itself when it has no parent.
    pub fn get_root(&self, i: usize) -> (r: usize)
        requires
            self.wf(),
            self.has(i),
        ensures
            Some(r) == self.root_of(),
            self.has(r),
    {
        let mut cur: usize = i;
        loop
            invariant
                self.wf(),
                self.has(cur),
            ensures
                self.has(cur),
                self.shape@.root_idx() == Some(cur),
            decreases self.shape@.depth_of(cur),
        {
            proof {
                self.lemma_at(cur);
                lemma_parent_step(self.shape@, cur, None);
            }
            let nd = self.nodes[cur];
            match nd.parent {
                Some(q) => {
                    proof {
                        assert(self.shape@.root_idx() != Some(cur));
                        assert(self.shape@.depth_of(q) < self.shape@.depth_of(cur));
                    }
                    cur = q;
                }
                None => {
                    proof {
                        assert(self.shape@.root_idx() == Some(cur));
                    }
                    break;
                }
            }
        }
        cur
    }

    /// Puts the subtree rooted at `v` (or an empty slot, for `None`)
    /// where the subtree rooted at `u` was: `u`'s parent now points at
    /// `v`, and `v` points back at it.  `v` must come from inside `u`'s
    /// own subtree, so that no node ends up with two parents; the old
    /// subtree around `u` becomes unreachable.  A caller whose root was
    /// `u` finds the stored root re-anchored at `v`.
    pub fn transplant(&mut self, u: usize, v: Option<usize>) -> (r: bool)
        requires
            old(self).wf(),
            old(self).has(u),
            v matches Some(vi) ==> old(self).shape().subtree_at(u).contains_idx(vi),
        ensures
            r == true,
            final(self).wf(),
            final(self).shape() == old(self).shape().replace_at(u, match v {
                None => Tree::Nil,
                Some(vi) => old(self).shape().subtree_at(vi),
            }),
            v matches Some(vi) ==> final(self).has(vi)
                && final(self).parent_of(vi) == old(self).parent_of(u),
            final(self).inorder() == old(self).shape().ctx_left(u) + (match v {
                None => Seq::<i32>::empty(),
                Some(vi) => old(self).shape().subtree_at(vi).inorder(),
            }) + old(self).shape().ctx_right(u),
            forall|m: usize| #[trigger] final(self).has(m) <==> ((old(self).has(m)
                && !old(self).shape().subtree_at(u).contains_idx(m))
                || (match v {
                    None => false,
                    Some(vi) => old(self).shape().subtree_at(vi).contains_idx(m),
                })),
    {
        let ghost t0 = self.shape@;
        let ghost ns0 = self.nodes@;
        let ghost snew = (match v {
            None => Tree::Nil,
            Some(vi) => t0.subtree_at(vi),
        });
        proof {
            self.lemma_at(u);
            lemma_subtree_props(t0, u);
            lemma_parent_step(t0, u, None);
            lemma_decompose(t0, u);
            match v {
                None => {}
                Some(vi) => {
                    lemma_subtree_trans(t0, u, vi);
                    lemma_subtree_props(t0, vi);
                    self.lemma_at(vi);
                    assert(snew.root_idx() == Some(vi));
                    assert forall|m: usize| snew.contains_idx(m)
                        implies t0.subtree_at(u).contains_idx(m) by {
                        assert(t0.subtree_at(u).subtree_at(vi).contains_idx(m));
                        lemma_subtree_props(t0.subtree_at(u), vi);
                    }
                    assert(links_ok(snew, ns0, t0.parent_rec(vi, None)));
                }
            }
            assert(snew.root_idx() == v);
        }
        let nd_u = self.nodes[u];
        match nd_u.parent {
            Some(qi) => {
                proof {
                    assert(t0.parent_of(u) == Some(qi));
                    assert(t0.contains_idx(qi));
                    self.lemma_at(qi);
                    lemma_parent_outside(t0, u);
                    assert(t0.left_of(qi) == Some(u) || t0.right_of(qi) == Some(u));
                }
                let qn = self.nodes[qi];
                let is_left = match qn.left {
                    Some(lc) => lc == u,
                    None => false,
                };
                if is_left {
                    self.nodes[qi].left = v;
                } else {
                    proof {
                        assert(qn.right == Some(u));
                    }
                    self.nodes[qi].right = v;
                }
            }
            None => {
                proof {
                    assert(t0.parent_of(u) is None);
                    assert(t0.root_idx() == Some(u)) by {
                        lemma_parent_step(t0, u, None);
                    }
                }
                self.root = v;
            }
        }
        match v {
            Some(vi) => {
                proof {
                    lemma_links_bound(t0, ns0, None);
                }
                self.nodes[vi].parent = nd_u.parent;
            }
            None => {}
        }
        self.shape = Ghost(t0.replace_at(u, snew));
        proof {
            let ns2 = self.nodes@;
            let q = t0.parent_of(u);
            // the replacement subtree is linked under u's old parent
            match v {
                None => {
                    assert(links_ok(snew, ns2, q));
                }
                Some(vi) => {
                    assert(!t0.subtree_at(u).contains_idx(nd_u.parent.unwrap())
                        ==> nd_u.parent.unwrap() != vi) by {
                        if nd_u.parent is Some {
                            lemma_parent_outside(t0, u);
                        }
                    }
                    assert forall|m: usize| snew.contains_idx(m) implies m < ns2.len()
                        && (Some(m) != snew.root_idx() ==> ns2[m as int] == ns0[m as int]) by {
                        assert(t0.contains_idx(m));
                        if nd_u.parent is Some {
                            lemma_parent_outside(t0, u);
                            assert(m != nd_u.parent.unwrap());
                        }
                    }
                    lemma_links_reparent(snew, ns0, ns2, t0.parent_rec(vi, None), q);
                }
            }
            // kept slots: only u's parent changed, and only its link to u
            assert forall|m: usize| #[trigger] t0.contains_idx(m)
                && !t0.subtree_at(u).contains_idx(m) implies m < ns2.len() && (
                if t0.parent_rec(u, None) == Some(m) {
                    ns2[m as int].key == ns0[m as int].key
                    && ns2[m as int].parent == ns0[m as int].parent
                    && (if ns0[m as int].left == Some(u) {
                        ns2[m as int].left == snew.root_idx()
                            && ns2[m as int].right == ns0[m as int].right
                    } else {
                        ns2[m as int].left == ns0[m as int].left
                            && ns2[m as int].right == snew.root_idx()
                    })
                } else {
                    ns2[m as int] == ns0[m as int]
                }) by {
                lemma_links_bound(t0, ns0, None);
                match v {
                    None => {}
                    Some(vi) => {
                        assert(m != vi);
                    }
                }
            }
            lemma_links_replace(t0, ns0, ns2, None, u, snew);
            lemma_replace_props(t0, u, snew);
            lemma_replace_inorder(t0, u, snew);
            assert(self.wf());
            match v {
                None => {}
                Some(vi) => {
                    let tn = t0.replace_at(u, snew);
                    assert(tn.contains_idx(vi));
                    lemma_links_subtree(tn, ns2, None, vi);
                    lemma_subtree_props(tn, vi);
                    assert(ns2[vi as int].parent == tn.parent_rec(vi, None));
                    assert(ns2[vi as int].parent == nd_u.parent);
                }
            }
        }
        true
    }

    /// Unlinks the node in live slot `z` by the textbook splicing: a
    /// node with at most one child is transplanted away; a node with two
    /// children is replaced by its in-order successor, the minimum of
    /// its right subtree.  Exactly `z`'s key leaves the traversal, the
    /// ordering is preserved, and `z`'s slot becomes unreachable.
    #[verifier::rlimit(100)]
    pub fn tree_delete(&mut self, z: usize) -> (r: bool)
        requires
            old(self).wf(),
            old(self).ordered(),
            old(self).has(z),
        ensures
            r == true,
            final(self).wf(),
            final(self).ordered(),
            !final(self).has(z),
            final(self).inorder().len() == old(self).inorder().len() - 1,
            forall|v: i32| #[trigger] final(self).inorder().contains(v)
                <==> (old(self).inorder().contains(v) && v != old(self).key_at(z)),
    {
        let ghost t0 = self.shape@;
        let ghost ns0 = self.nodes@;
        let ghost old_in = t0.inorder();
        proof {
            self.lemma_at(z);
            lemma_subtree_props(t0, z);
            lemma_decompose(t0, z);
            lemma_ctx_child(t0, z);
            lemma_ordered_sorted(t0);
        }
        let ghost subz = t0.subtree_at(z);
        let ghost kz = t0.key_at(z);
        let ghost ltree = (match subz {
            Tree::Nil => Tree::Nil,
            Tree::Node { left, .. } => *left,
        });
        let ghost rtree = (match subz {
            Tree::Nil => Tree::Nil,
            Tree::Node { right, .. } => *right,
        });
        let nd_z = self.nodes[z];
        if nd_z.left.is_none() {
            proof {
                assert(ltree is Nil);
                assert(ltree.inorder() =~= Seq::<i32>::empty());
                assert(subz.inorder() == seq![kz] + rtree.inorder()) by {
                    assert(subz.inorder() =~= seq![kz] + rtree.inorder());
                }
                match nd_z.right {
                    Some(zr) => {
                        assert(rtree.root_idx() == Some(zr));
                        assert(rtree.contains_idx(zr));
                        assert(subz.contains_idx(zr));
                        assert(t0.subtree_at(zr) == rtree);
                    }
                    None => {
                        assert(rtree is Nil);
                    }
                }
            }
            let res = self.transplant(z, nd_z.right);
            proof {
                let pos = t0.ctx_left(z).len() as int;
                assert(old_in == t0.ctx_left(z) + subz.inorder() + t0.ctx_right(z));
                assert(old_in[pos] == kz);
                let rin = (match nd_z.right {
                    None => Seq::<i32>::empty(),
                    Some(zr) => t0.subtree_at(zr).inorder(),
                });
                assert(rin == rtree.inorder());
                assert(self.shape@.inorder() == t0.ctx_left(z) + rin + t0.ctx_right(z));
                assert(self.shape@.inorder() =~= old_in.subrange(0, pos)
                    + old_in.subrange(pos + 1, old_in.len() as int)) by {
                    assert(old_in.subrange(0, pos) =~= t0.ctx_left(z));
                    assert(old_in.subrange(pos + 1, old_in.len() as int)
                        =~= rtree.inorder() + t0.ctx_right(z));
                }
                lemma_sorted_remove_at(old_in, pos);
                lemma_sorted_ordered(self.shape@);
                assert(!self.has(z)) by {
                    match nd_z.right {
                        Some(zr) => {
                            assert(!rtree.contains_idx(z));
                        }
                        None => {}
                    }
                }
            }
            res
        } else if nd_z.right.is_none() {
            let zl = match nd_z.left {
                Some(x) => x,
                None => 0,
            };
            proof {
                assert(rtree is Nil);
                assert(rtree.inorder() =~= Seq::<i32>::empty());
                assert(subz.inorder() == ltree.inorder() + seq![kz] + rtree.inorder());
                assert(subz.inorder() =~= ltree.inorder() + seq![kz]);
                assert(ltree.root_idx() == Some(zl));
                match subz {
                    Tree::Nil => {}
                    Tree::Node { left, .. } => {
                        assert(*left == ltree);
                        assert((*left).contains_idx(zl));
                        assert(subz.contains_idx(zl));
                    }
                }
                assert(t0.subtree_at(zl) == ltree);
            }
            let res = self.transplant(z, nd_z.left);
            proof {
                let pos = t0.ctx_left(z).len() + ltree.inorder().len() as int;
                assert(old_in == t0.ctx_left(z) + subz.inorder() + t0.ctx_right(z));
                assert(old_in[pos] == kz);
                assert(self.shape@.inorder() == t0.ctx_left(z) + ltree.inorder() + t0.ctx_right(z));
                assert(self.shape@.inorder() =~= old_in.subrange(0, pos)
                    + old_in.subrange(pos + 1, old_in.len() as int)) by {
                    assert(old_in.subrange(0, pos) =~= t0.ctx_left(z) + ltree.inorder());
                    assert(old_in.subrange(pos + 1, old_in.len() as int) =~= t0.ctx_right(z));
                }
                lemma_sorted_remove_at(old_in, pos);
                lemma_sorted_ordered(self.shape@);
                assert(!self.has(z)) by {
                    assert(!ltree.contains_idx(z));
                }
            }
            res
        } else {
            let zl = match nd_z.left {
                Some(x) => x,
                None => 0,
            };
            let zr = match nd_z.right {
                Some(x) => x,
                None => 0,
            };
            proof {
                assert(ltree.root_idx() == Some(zl));
                assert(rtree.root_idx() == Some(zr));
                assert(t0.subtree_at(zr) == rtree);
                assert(t0.contains_idx(zr)) by {
                    match subz {
                        Tree::Nil => {}
                        Tree::Node { right, .. } => {
                            assert((*right).contains_idx(zr));
                            assert(subz.contains_idx(zr));
                        }
                    }
                }
                lemma_subtree_props(t0, zr);
            }
            let s_idx = self.minimum(zr);
            if s_idx == zr {
                self.delete_splice_right(z, zl, zr)
            } else {
                self.delete_splice_deep(z, zl, zr, s_idx)
            }
        }
    }

    /// Deletion of a node whose in-order successor is its own right
    /// child: that child moves up into the node's place, adopting the
    /// left subtree and keeping its own right one.
    fn delete_splice_right(&mut self, z: usize, zl: usize, zr: usize) -> (r: bool)
        requires
            old(self).wf(),
            old(self).ordered(),
            old(self).has(z),
            old(self).left_of(z) == Some(zl),
            old(self).right_of(z) == Some(zr),
            old(self).shape().subtree_at(zr).leftmost() == zr,
        ensures
            r == true,
            final(self).wf(),
            final(self).ordered(),
            !final(self).has(z),
            final(self).inorder().len() == old(self).inorder().len() - 1,
            forall|v: i32| #[trigger] final(self).inorder().contains(v)
                <==> (old(self).inorder().contains(v) && v != old(self).key_at(z)),
    {
        let ghost s_idx: usize = zr;
        let ghost t0 = self.shape@;
        let ghost ns0 = self.nodes@;
        let ghost old_in = t0.inorder();
        proof {
            self.lemma_at(z);
            lemma_subtree_props(t0, z);
            lemma_decompose(t0, z);
            lemma_ctx_child(t0, z);
            lemma_ordered_sorted(t0);
        }
        let ghost subz = t0.subtree_at(z);
        let ghost kz = t0.key_at(z);
        let ghost ltree = (match subz {
            Tree::Nil => Tree::Nil,
            Tree::Node { left, .. } => *left,
        });
        let ghost rtree = (match subz {
            Tree::Nil => Tree::Nil,
            Tree::Node { right, .. } => *right,
        });
        let nd_z = self.nodes[z];
        proof {
            assert(nd_z.left == Some(zl));
            assert(nd_z.right == Some(zr));
            assert(ltree.root_idx() == Some(zl));
            assert(rtree.root_idx() == Some(zr));
            assert(t0.subtree_at(zr) == rtree);
            assert(t0.subtree_at(zl) == ltree);
            match subz {
                Tree::Nil => {}
                Tree::Node { left, right, .. } => {
                    assert(*left == ltree);
                    assert(*right == rtree);
                    assert((*left).contains_idx(zl));
                    assert((*right).contains_idx(zr));
                    assert(subz.contains_idx(zl));
                    assert(subz.contains_idx(zr));
                    assert(links_ok(subz, ns0, t0.parent_rec(z, None)));
                    assert(links_ok(rtree, ns0, Some(z)));
                    assert(links_ok(ltree, ns0, Some(z)));
                    assert(ns0[zr as int].parent == Some(z));
                }
            }
            assert(t0.contains_idx(zr));
            assert(t0.contains_idx(zl));
            assert(subz.inorder() == ltree.inorder() + seq![kz] + rtree.inorder());
            lemma_subtree_props(t0, zr);
            lemma_subtree_props(t0, zl);
            self.lemma_at(zr);
            assert(t0.parent_rec(zr, None) == Some(z));
            lemma_leftmost(rtree);
            lemma_leftmost_parent(rtree);
            lemma_subtree_trans(t0, zr, s_idx);
            self.lemma_at(s_idx);
            self.lemma_at(zl);
        }
        let ghost s_sub = t0.subtree_at(s_idx);
        let ghost ks = t0.key_at(s_idx);
                // the successor is z's right child: it moves up into z's
                // place and keeps its own right subtree
                proof {
                    assert(match rtree {
                        Tree::Nil => true,
                        Tree::Node { left, .. } => (*left) is Nil,
                    }) by {
                        match rtree {
                            Tree::Nil => {}
                            Tree::Node { left, .. } => {
                                if (*left) is Node {
                                    lemma_leftmost(*left);
                                    assert(rtree.leftmost() == left.leftmost());
                                    assert((*left).contains_idx(rtree.leftmost()));
                                }
                            }
                        }
                    }
                }
                let ghost srr = (match rtree {
                    Tree::Nil => Tree::Nil,
                    Tree::Node { right, .. } => *right,
                });
                let ghost s2 = Tree::Node {
                    idx: zr,
                    key: ks,
                    left: Box::new(ltree),
                    right: Box::new(srr),
                };
                proof {
                    lemma_parent_step(t0, z, None);
                    if nd_z.parent is Some {
                        lemma_parent_outside(t0, z);
                        assert(t0.contains_idx(nd_z.parent.unwrap()));
                        self.lemma_at(nd_z.parent.unwrap());
                    } else {
                        assert(t0.root_idx() == Some(z));
                    }
                    lemma_links_bound(t0, ns0, None);
                }
                match nd_z.parent {
                    Some(qi) => {
                        let qn = self.nodes[qi];
                        let is_left = match qn.left {
                            Some(lc) => lc == z,
                            None => false,
                        };
                        if is_left {
                            self.nodes[qi].left = Some(zr);
                        } else {
                            proof {
                                assert(qn.right == Some(z));
                            }
                            self.nodes[qi].right = Some(zr);
                        }
                    }
                    None => {
                        self.root = Some(zr);
                    }
                }
                self.nodes[zr].parent = nd_z.parent;
                self.nodes[zr].left = Some(zl);
                self.nodes[zl].parent = Some(zr);
                self.shape = Ghost(t0.replace_at(z, s2));
                proof {
                    let ns2 = self.nodes@;
                    let q = t0.parent_of(z);
                    assert(q == nd_z.parent);
                    // distinctness of the touched slots
                    assert(z != zl && z != zr && zl != zr);
                    assert(q matches Some(qi) ==> qi != z && qi != zl && qi != zr) by {
                        if q is Some {
                            lemma_parent_outside(t0, z);
                        }
                    }
                    // the moved-up node's slot
                    assert(ns2[zr as int].key == ks);
                    assert(ns2[zr as int].parent == nd_z.parent);
                    assert(ns2[zr as int].left == Some(zl));
                    assert(ns2[zr as int].right == srr.root_idx());
                    // the left subtree hangs under it now
                    assert forall|m: usize| ltree.contains_idx(m) implies m < ns2.len()
                        && (Some(m) != ltree.root_idx() ==> ns2[m as int] == ns0[m as int]) by {
                        assert(t0.contains_idx(m));
                        assert(m != zr);
                        if q is Some {
                            lemma_parent_outside(t0, z);
                            assert(m != q.unwrap());
                        }
                    }
                    lemma_links_reparent(ltree, ns0, ns2, Some(z), Some(zr));
                    // the successor's right subtree is untouched
                    assert forall|m: usize| srr.contains_idx(m) implies m < ns2.len()
                        && ns2[m as int] == ns0[m as int] by {
                        assert(rtree.contains_idx(m));
                        assert(t0.contains_idx(m));
                        assert(m != zr && m != zl);
                        if q is Some {
                            lemma_parent_outside(t0, z);
                            assert(m != q.unwrap());
                        }
                    }
                    assert(links_ok(srr, ns0, Some(zr)));
                    lemma_links_frame(srr, ns0, ns2, Some(zr));
                    assert(links_ok(s2, ns2, q));
                    // the new subtree is clean
                    assert(s2.uniq()) by {
                        assert(!ltree.contains_idx(zr));
                        assert(!srr.contains_idx(zr)) by {
                            match rtree {
                                Tree::Nil => {}
                                Tree::Node { left, right, .. } => {
                                    assert(!right.contains_idx(zr));
                                }
                            }
                        }
                        assert forall|m: usize| !(ltree.contains_idx(m)
                            && srr.contains_idx(m)) by {
                            if srr.contains_idx(m) {
                                assert(rtree.contains_idx(m));
                            }
                        }
                    }
                    assert forall|m: usize| s2.contains_idx(m) implies !(t0.contains_idx(m)
                        && !subz.contains_idx(m)) by {
                        if srr.contains_idx(m) {
                            assert(rtree.contains_idx(m));
                        }
                    }
                    // everything outside z's subtree kept its slot
                    assert forall|m: usize| #[trigger] t0.contains_idx(m)
                        && !subz.contains_idx(m) implies m < ns2.len() && (
                        if t0.parent_rec(z, None) == Some(m) {
                            ns2[m as int].key == ns0[m as int].key
                            && ns2[m as int].parent == ns0[m as int].parent
                            && (if ns0[m as int].left == Some(z) {
                                ns2[m as int].left == s2.root_idx()
                                    && ns2[m as int].right == ns0[m as int].right
                            } else {
                                ns2[m as int].left == ns0[m as int].left
                                    && ns2[m as int].right == s2.root_idx()
                            })
                        } else {
                            ns2[m as int] == ns0[m as int]
                        }) by {
                        assert(m != z && m != zl && m != zr);
                    }
                    lemma_links_replace(t0, ns0, ns2, None, z, s2);
                    lemma_replace_props(t0, z, s2);
                    lemma_replace_inorder(t0, z, s2);
                    assert(self.wf());
                    // the traversal lost exactly z's key
                    let pos = t0.ctx_left(z).len() + ltree.inorder().len() as int;
                    assert(rtree.inorder() == seq![ks] + srr.inorder()) by {
                        match rtree {
                            Tree::Nil => {}
                            Tree::Node { left, .. } => {
                                assert((*left).inorder() =~= Seq::<i32>::empty());
                                assert(rtree.inorder() =~= seq![ks] + srr.inorder());
                            }
                        }
                    }
                    assert(s2.inorder() == ltree.inorder() + seq![ks] + srr.inorder());
                    assert(old_in == t0.ctx_left(z) + subz.inorder() + t0.ctx_right(z));
                    assert(old_in[pos] == kz);
                    assert(self.shape@.inorder() =~= old_in.subrange(0, pos)
                        + old_in.subrange(pos + 1, old_in.len() as int)) by {
                        assert(old_in.subrange(0, pos) =~= t0.ctx_left(z) + ltree.inorder());
                        assert(old_in.subrange(pos + 1, old_in.len() as int)
                            =~= seq![ks] + srr.inorder() + t0.ctx_right(z));
                    }
                    lemma_sorted_remove_at(old_in, pos);
                    lemma_sorted_ordered(self.shape@);
                    assert(!self.has(z)) by {
                        assert(!s2.contains_idx(z)) by {
                            assert(!ltree.contains_idx(z));
                            assert(!rtree.contains_idx(z));
                        }
                    }
                }
                true
    }

    /// Deletion of a node whose in-order successor lies deeper in the
    /// right subtree: the successor is first spliced out of its place,
    /// then moved up into the node's position with both subtrees.
    #[verifier::rlimit(100)]
    fn delete_splice_deep(&mut self, z: usize, zl: usize, zr: usize, s_idx: usize) -> (r: bool)
        requires
            old(self).wf(),
            old(self).ordered(),
            old(self).has(z),
            old(self).left_of(z) == Some(zl),
            old(self).right_of(z) == Some(zr),
            old(self).shape().subtree_at(zr).leftmost() == s_idx,
            s_idx != zr,
        ensures
            r == true,
            final(self).wf(),
            final(self).ordered(),
            !final(self).has(z),
            final(self).inorder().len() == old(self).inorder().len() - 1,
            forall|v: i32| #[trigger] final(self).inorder().contains(v)
                <==> (old(self).inorder().contains(v) && v != old(self).key_at(z)),
    {
        let ghost t0 = self.shape@;
        let ghost ns0 = self.nodes@;
        let ghost old_in = t0.inorder();
        proof {
            self.lemma_at(z);
            lemma_subtree_props(t0, z);
            lemma_decompose(t0, z);
            lemma_ctx_child(t0, z);
            lemma_ordered_sorted(t0);
        }
        let ghost subz = t0.subtree_at(z);
        let ghost kz = t0.key_at(z);
        let ghost ltree = (match subz {
            Tree::Nil => Tree::Nil,
            Tree::Node { left, .. } => *left,
        });
        let ghost rtree = (match subz {
            Tree::Nil => Tree::Nil,
            Tree::Node { right, .. } => *right,
        });
        let nd_z = self.nodes[z];
        proof {
            assert(nd_z.left == Some(zl));
            assert(nd_z.right == Some(zr));
            assert(ltree.root_idx() == Some(zl));
            assert(rtree.root_idx() == Some(zr));
            assert(t0.subtree_at(zr) == rtree);
            assert(t0.subtree_at(zl) == ltree);
            match subz {
                Tree::Nil => {}
                Tree::Node { left, right, .. } => {
                    assert(*left == ltree);
                    assert(*right == rtree);
                    assert((*left).contains_idx(zl));
                    assert((*right).contains_idx(zr));
                    assert(subz.contains_idx(zl));
                    assert(subz.contains_idx(zr));
                    assert(links_ok(subz, ns0, t0.parent_rec(z, None)));
                    assert(links_ok(rtree, ns0, Some(z)));
                    assert(links_ok(ltree, ns0, Some(z)));
                    assert(ns0[zr as int].parent == Some(z));
                }
            }
            assert(t0.contains_idx(zr));
            assert(t0.contains_idx(zl));
            assert(subz.inorder() == ltree.inorder() + seq![kz] + rtree.inorder());
            lemma_subtree_props(t0, zr);
            lemma_subtree_props(t0, zl);
            self.lemma_at(zr);
            assert(t0.parent_rec(zr, None) == Some(z));
            lemma_leftmost(rtree);
            lemma_leftmost_parent(rtree);
            lemma_subtree_trans(t0, zr, s_idx);
            self.lemma_at(s_idx);
            self.lemma_at(zl);
        }
        let ghost s_sub = t0.subtree_at(s_idx);
        let ghost ks = t0.key_at(s_idx);
                // the successor lies deeper: splice it out of the right
                // subtree first, then move it into z's place
                let ghost sp_g = rtree.parent_of(s_idx);
                proof {
                    assert(rtree.root_idx() != Some(s_idx));
                    assert(sp_g is Some);
                    assert(rtree.contains_idx(sp_g.unwrap()));
                    assert(rtree.left_of(sp_g.unwrap()) == Some(s_idx));
                    lemma_parent_trans(t0, zr, s_idx, None);
                    assert(t0.parent_rec(zr, None) == Some(z));
                    lemma_parent_rec_indep(rtree, s_idx, Some(z), None);
                    assert(t0.parent_of(s_idx) == sp_g);
                    lemma_subtree_trans(t0, zr, sp_g.unwrap());
                    self.lemma_at(sp_g.unwrap());
                    lemma_links_bound(t0, ns0, None);
                    lemma_parent_outside(t0, s_idx);
                }
                let spi = match self.nodes[s_idx].parent {
                    Some(x) => x,
                    None => 0,
                };
                proof {
                    assert(Some(spi) == sp_g);
                }
                let sr = self.nodes[s_idx].right;
                let ghost sr_tree = (match s_sub {
                    Tree::Nil => Tree::Nil,
                    Tree::Node { right, .. } => *right,
                });
                proof {
                    assert(sr == sr_tree.root_idx());
                    assert(s_sub == Tree::Node {
                        idx: s_idx,
                        key: ks,
                        left: Box::new(Tree::Nil),
                        right: Box::new(sr_tree),
                    }) by {
                        match s_sub {
                            Tree::Nil => {}
                            Tree::Node { left, .. } => {
                                assert((*left) is Nil);
                            }
                        }
                    }
                    assert(rtree.subtree_at(s_idx) == s_sub);
                    // slots of the successor's right subtree sit inside s's subtree
                    lemma_subtree_props(rtree, s_idx);
                    assert forall|m: usize| sr_tree.contains_idx(m)
                        implies s_sub.contains_idx(m) && rtree.contains_idx(m)
                            && t0.contains_idx(m) && m != spi && m != s_idx && m != z
                            && m != zl && m != zr by {
                        assert(s_sub.contains_idx(m));
                        assert(rtree.contains_idx(m));
                        assert(t0.contains_idx(m));
                        assert(!s_sub.contains_idx(spi));
                        assert(!sr_tree.contains_idx(s_idx));
                        assert(!rtree.contains_idx(z) && !rtree.contains_idx(zl));
                        assert(!sr_tree.contains_idx(zr)) by {
                            if sr_tree.contains_idx(zr) {
                                assert(s_sub.contains_idx(zr));
                                assert(rtree.subtree_at(s_idx).contains_idx(zr));
                                match rtree {
                                    Tree::Nil => {}
                                    Tree::Node { left, .. } => {
                                        assert(left.contains_idx(s_idx));
                                        lemma_subtree_props(*left, s_idx);
                                        assert(rtree.subtree_at(s_idx) == left.subtree_at(s_idx));
                                        assert((*left).contains_idx(zr));
                                    }
                                }
                            }
                        }
                    }
                }
                proof {
                    match sr {
                        Some(sri) => {
                            assert(sr_tree.root_idx() == Some(sri));
                            assert(sr_tree.contains_idx(sri));
                            assert(t0.contains_idx(sri));
                            assert(sri < self.nodes@.len());
                        }
                        None => {}
                    }
                }
                self.nodes[spi].left = sr;
                match sr {
                    Some(sri) => {
                        self.nodes[sri].parent = Some(spi);
                    }
                    None => {}
                }
                let ghost ns_a = self.nodes@;
                let ghost rprime = rtree.replace_at(s_idx, sr_tree);
                proof {
                    // the right subtree with the successor spliced out
                    match sr_tree {
                        Tree::Nil => {
                            assert(links_ok(sr_tree, ns_a, Some(spi)));
                        }
                        Tree::Node { .. } => {
                            assert(links_ok(sr_tree, ns0, Some(s_idx)));
                            assert forall|m: usize| sr_tree.contains_idx(m) implies m < ns_a.len()
                                && (Some(m) != sr_tree.root_idx()
                                    ==> ns_a[m as int] == ns0[m as int]) by {
                                assert(m != spi);
                            }
                            lemma_links_reparent(sr_tree, ns0, ns_a, Some(s_idx), Some(spi));
                        }
                    }
                    assert(links_ok(rtree, ns0, Some(z)));
                    assert(rtree.parent_rec(s_idx, Some(z)) == Some(spi));
                    assert(ns0[spi as int].left == Some(s_idx));
                    assert forall|m: usize| #[trigger] rtree.contains_idx(m)
                        && !rtree.subtree_at(s_idx).contains_idx(m) implies m < ns_a.len() && (
                        if rtree.parent_rec(s_idx, Some(z)) == Some(m) {
                            ns_a[m as int].key == ns0[m as int].key
                            && ns_a[m as int].parent == ns0[m as int].parent
                            && (if ns0[m as int].left == Some(s_idx) {
                                ns_a[m as int].left == sr_tree.root_idx()
                                    && ns_a[m as int].right == ns0[m as int].right
                            } else {
                                ns_a[m as int].left == ns0[m as int].left
                                    && ns_a[m as int].right == sr_tree.root_idx()
                            })
                        } else {
                            ns_a[m as int] == ns0[m as int]
                        }) by {
                        lemma_subtree_props(rtree, s_idx);
                        assert(rtree.subtree_at(s_idx) == s_sub);
                        assert(s_sub.contains_idx(s_idx));
                        assert(m != s_idx);
                        match subz {
                            Tree::Nil => {}
                            Tree::Node { right, .. } => {
                                assert((*right).contains_idx(m));
                                assert(subz.contains_idx(m));
                            }
                        }
                        assert(t0.contains_idx(m));
                        assert(m < ns0.len());
                        assert(rtree.parent_rec(s_idx, Some(z)) == Some(spi));
                        match sr {
                            Some(sri) => {
                                assert(sr_tree.root_idx() == Some(sri));
                                assert(sr_tree.contains_idx(sri));
                                assert(s_sub.contains_idx(sri));
                                assert(m != sri);
                                assert(sri != spi);
                            }
                            None => {}
                        }
                    }
                    assert forall|m: usize| sr_tree.contains_idx(m)
                        implies !(rtree.contains_idx(m)
                            && !rtree.subtree_at(s_idx).contains_idx(m)) by {
                        assert(s_sub.contains_idx(m));
                    }
                    lemma_subtree_props(rtree, s_idx);
                    lemma_links_replace(rtree, ns0, ns_a, Some(z), s_idx, sr_tree);
                    lemma_replace_props(rtree, s_idx, sr_tree);
                    assert(links_ok(rprime, ns_a, Some(z)));
                    assert(rprime.root_idx() == Some(zr));
                }
                self.nodes[s_idx].right = Some(zr);
                self.nodes[zr].parent = Some(s_idx);
                proof {
                    lemma_parent_step(t0, z, None);
                    if nd_z.parent is Some {
                        lemma_parent_outside(t0, z);
                        let qi = nd_z.parent.unwrap();
                        assert(t0.contains_idx(qi));
                        assert(qi < ns0.len());
                        lemma_links_subtree(t0, ns0, None, qi);
                        lemma_subtree_props(t0, qi);
                        assert(ns0[qi as int].left == t0.left_of(qi));
                        assert(ns0[qi as int].right == t0.right_of(qi));
                        assert(t0.left_of(qi) == Some(z) || t0.right_of(qi) == Some(z));
                        assert(!subz.contains_idx(qi));
                        assert(qi != spi && qi != s_idx && qi != zr && qi != zl) by {
                            assert(subz.contains_idx(spi)) by {
                                match subz {
                                    Tree::Nil => {}
                                    Tree::Node { right, .. } => {
                                        assert((*right).contains_idx(spi));
                                    }
                                }
                            }
                            assert(subz.contains_idx(s_idx)) by {
                                match subz {
                                    Tree::Nil => {}
                                    Tree::Node { right, .. } => {
                                        assert((*right).contains_idx(s_idx));
                                    }
                                }
                            }
                        }
                        match sr {
                            Some(sri) => {
                                assert(qi != sri) by {
                                    assert(sr_tree.contains_idx(sri));
                                    assert(subz.contains_idx(sri)) by {
                                        match subz {
                                            Tree::Nil => {}
                                            Tree::Node { right, .. } => {
                                                assert((*right).contains_idx(sri));
                                            }
                                        }
                                    }
                                }
                            }
                            None => {}
                        }
                        assert(self.nodes@[qi as int] == ns0[qi as int]);
                    } else {
                        assert(t0.root_idx() == Some(z));
                    }
                }
                match nd_z.parent {
                    Some(qi) => {
                        let qn = self.nodes[qi];
                        proof {
                            assert(qn == ns0[qi as int]);
                        }
                        let is_left = match qn.left {
                            Some(lc) => lc == z,
                            None => false,
                        };
                        if is_left {
                            self.nodes[qi].left = Some(s_idx);
                        } else {
                            proof {
                                assert(qn.right == Some(z));
                            }
                            self.nodes[qi].right = Some(s_idx);
                        }
                    }
                    None => {
                        self.root = Some(s_idx);
                    }
                }
                self.nodes[s_idx].parent = nd_z.parent;
                self.nodes[s_idx].left = Some(zl);
                self.nodes[zl].parent = Some(s_idx);
                let ghost s2 = Tree::Node {
                    idx: s_idx,
                    key: ks,
                    left: Box::new(ltree),
                    right: Box::new(rprime),
                };
                self.shape = Ghost(t0.replace_at(z, s2));
                proof {
                    let ns2 = self.nodes@;
                    let q = t0.parent_of(z);
                    assert(q == nd_z.parent);
                    assert(q matches Some(qi) ==> qi != z && qi != zl && qi != zr && qi != s_idx
                        && qi != spi && (sr matches Some(sri) ==> qi != sri)) by {
                        if q is Some {
                            lemma_parent_outside(t0, z);
                            assert(!subz.contains_idx(q.unwrap()));
                        }
                    }
                    // the spliced-out right subtree keeps its links, rehung under s
                    assert forall|m: usize| rprime.contains_idx(m) implies m < ns2.len()
                        && (Some(m) != rprime.root_idx() ==> ns2[m as int] == ns_a[m as int]) by {
                        assert(rtree.contains_idx(m) || sr_tree.contains_idx(m));
                        assert(rtree.contains_idx(m));
                        assert(m != s_idx && m != z && m != zl);
                        if q is Some {
                            assert(m != q.unwrap());
                        }
                    }
                    assert(ns2[zr as int].key == ns_a[zr as int].key
                        && ns2[zr as int].left == ns_a[zr as int].left
                        && ns2[zr as int].right == ns_a[zr as int].right
                        && ns2[zr as int].parent == Some(s_idx)) by {
                        assert(zr != s_idx && zr != zl);
                        if q is Some {
                            assert(zr != q.unwrap());
                        }
                    }
                    lemma_links_reparent(rprime, ns_a, ns2, Some(z), Some(s_idx));
                    // the left subtree rehung under s
                    assert forall|m: usize| ltree.contains_idx(m) implies m < ns2.len()
                        && (Some(m) != ltree.root_idx() ==> ns2[m as int] == ns0[m as int]) by {
                        assert(t0.contains_idx(m));
                        assert(m != z && m != zr && m != s_idx && m != spi);
                        match sr {
                            Some(sri) => {
                                assert(sr_tree.contains_idx(sri));
                                assert(m != sri);
                            }
                            None => {}
                        }
                        if q is Some {
                            assert(m != q.unwrap());
                        }
                    }
                    lemma_links_reparent(ltree, ns0, ns2, Some(z), Some(s_idx));
                    // the successor's own slot
                    assert(ns2[s_idx as int].key == ks);
                    assert(ns2[s_idx as int].parent == nd_z.parent);
                    assert(ns2[s_idx as int].left == Some(zl));
                    assert(ns2[s_idx as int].right == Some(zr));
                    assert(links_ok(s2, ns2, q));
                    // the new subtree is clean
                    assert(s2.uniq()) by {
                        assert(rprime.uniq());
                        assert forall|m: usize| rprime.contains_idx(m)
                            implies rtree.contains_idx(m) by {
                            assert(rtree.contains_idx(m) || sr_tree.contains_idx(m));
                        }
                        assert forall|m: usize| !(ltree.contains_idx(m)
                            && rprime.contains_idx(m)) by {
                            if rprime.contains_idx(m) {
                                assert(rtree.contains_idx(m));
                            }
                        }
                        assert(!ltree.contains_idx(s_idx));
                        assert(!rprime.contains_idx(s_idx));
                    }
                    assert forall|m: usize| s2.contains_idx(m) implies !(t0.contains_idx(m)
                        && !subz.contains_idx(m)) by {
                        if m != s_idx {
                            if rprime.contains_idx(m) {
                                assert(rtree.contains_idx(m));
                            }
                        }
                    }
                    // everything outside z's subtree kept its slot
                    assert forall|m: usize| #[trigger] t0.contains_idx(m)
                        && !subz.contains_idx(m) implies m < ns2.len() && (
                        if t0.parent_rec(z, None) == Some(m) {
                            ns2[m as int].key == ns0[m as int].key
                            && ns2[m as int].parent == ns0[m as int].parent
                            && (if ns0[m as int].left == Some(z) {
                                ns2[m as int].left == s2.root_idx()
                                    && ns2[m as int].right == ns0[m as int].right
                            } else {
                                ns2[m as int].left == ns0[m as int].left
                                    && ns2[m as int].right == s2.root_idx()
                            })
                        } else {
                            ns2[m as int] == ns0[m as int]
                        }) by {
                        assert(m != z && m != zl && m != zr && m != s_idx && m != spi);
                        match sr {
                            Some(sri) => {
                                assert(sr_tree.contains_idx(sri));
                                assert(m != sri);
                            }
                            None => {}
                        }
                    }
                    lemma_links_replace(t0, ns0, ns2, None, z, s2);
                    lemma_replace_props(t0, z, s2);
                    lemma_replace_inorder(t0, z, s2);
                    assert(self.wf());
                    // the traversal lost exactly z's key
                    lemma_replace_inorder(rtree, s_idx, sr_tree);
                    lemma_decompose(rtree, s_idx);
                    assert(rtree.ctx_left(s_idx) == Seq::<i32>::empty());
                    assert(s_sub.inorder() == seq![ks] + sr_tree.inorder()) by {
                        assert(Tree::Nil.inorder() == Seq::<i32>::empty());
                        assert(s_sub.inorder() == Tree::Nil.inorder() + seq![ks]
                            + sr_tree.inorder());
                        assert(s_sub.inorder() =~= seq![ks] + sr_tree.inorder());
                    }
                    assert(rtree.inorder() =~= seq![ks] + sr_tree.inorder()
                        + rtree.ctx_right(s_idx));
                    assert(rprime.inorder() =~= sr_tree.inorder() + rtree.ctx_right(s_idx));
                    assert(s2.inorder() == ltree.inorder() + seq![ks] + rprime.inorder());
                    let pos = t0.ctx_left(z).len() + ltree.inorder().len() as int;
                    assert(old_in == t0.ctx_left(z) + subz.inorder() + t0.ctx_right(z));
                    assert(old_in[pos] == kz);
                    assert(self.shape@.inorder() =~= old_in.subrange(0, pos)
                        + old_in.subrange(pos + 1, old_in.len() as int)) by {
                        assert(old_in.subrange(0, pos) =~= t0.ctx_left(z) + ltree.inorder());
                        assert(old_in.subrange(pos + 1, old_in.len() as int)
                            =~= seq![ks] + sr_tree.inorder() + rtree.ctx_right(s_idx)
                                + t0.ctx_right(z));
                    }
                    lemma_sorted_remove_at(old_in, pos);
                    lemma_sorted_ordered(self.shape@);
                    assert(!self.has(z)) by {
                        assert(!s2.contains_idx(z)) by {
                            assert(!ltree.contains_idx(z));
                            assert(!rtree.contains_idx(z));
                            if rprime.contains_idx(z) {
                                assert(rtree.contains_idx(z));
                            }
                        }
                    }
                }
                true
    }


    /// Looks `key` up from the root and, when a node holds it, deletes
    /// that node; reports whether anything was removed.
    pub fn tree_delete_with_key(&mut self, key: i32) -> (r: bool)
        requires
            old(self).wf(),
            old(self).ordered(),
        ensures
            final(self).wf(),
            final(self).ordered(),
            r == old(self).inorder().contains(key),
            !r ==> *final(self) == *old(self),
            r ==> final(self).inorder().len() == old(self).inorder().len() - 1,
            r ==> forall|v: i32| #[trigger] final(self).inorder().contains(v)
                <==> (old(self).inorder().contains(v) && v != key),
            !final(self).inorder().contains(key),
    {
        match self.root {
            None => {
                proof {
                    assert(self.shape@ is Nil);
                    assert(self.inorder() =~= Seq::<i32>::empty());
                }
                false
            }
            Some(ri) => {
                proof {
                    assert(self.shape@.contains_idx(ri));
                    assert(self.shape@.subtree_at(ri) == self.shape@);
                }
                let found = self.tree_search_correct(ri, key);
                match found {
                    None => false,
                    Some(zi) => {
                        self.tree_delete(zi);
                        true
                    }
                }
            }
        }
    }

    /// Hangs a fresh node holding `value` as the left child of live slot
    /// `i`, in place of whatever left subtree was there; the previous
    /// left subtree becomes unreachable.  No ordering is checked: this
    /// is a raw construction tool.
    pub fn add_left_child(&mut self, i: usize, value: i32)
        requires
            old(self).wf(),
            old(self).has(i),
        ensures
            final(self).wf(),
            final(self).has(i),
            final(self).left_of(i) is Some,
            !old(self).has(final(self).left_of(i).unwrap()),
            final(self).key_at(final(self).left_of(i).unwrap()) == value,
            final(self).parent_of(final(self).left_of(i).unwrap()) == Some(i),
            final(self).shape() == old(self).shape().replace_at(i,
                old(self).shape().subtree_at(i).with_left((Tree::Node {
                    idx: final(self).left_of(i).unwrap(),
                    key: value,
                    left: Box::new(Tree::Nil),
                    right: Box::new(Tree::Nil),
                }))),
            final(self).root_of() == old(self).root_of(),
    {
        let ghost t0 = self.shape@;
        let ghost ns0 = self.nodes@;
        proof {
            self.lemma_at(i);
            lemma_subtree_props(t0, i);
            lemma_links_bound(t0, ns0, None);
        }
        let ghost subz = t0.subtree_at(i);
        let j = self.nodes.len();
        self.nodes.push(NodeRecord { key: value, parent: Some(i), left: None, right: None });
        self.nodes[i].left = Some(j);
        let ghost leaf = Tree::Node {
            idx: j,
            key: value,
            left: Box::new(Tree::Nil),
            right: Box::new(Tree::Nil),
        };
        let ghost s2 = subz.with_left(leaf);
        self.shape = Ghost(t0.replace_at(i, s2));
        proof {
            let ns2 = self.nodes@;
            let ghost rtree = (match subz {
                Tree::Nil => Tree::Nil,
                Tree::Node { right, .. } => *right,
            });
            assert(s2 == Tree::Node {
                idx: i,
                key: t0.key_at(i),
                left: Box::new(leaf),
                right: Box::new(rtree),
            });
            assert(links_ok(Tree::Nil, ns2, Some(j)));
            assert(links_ok(leaf, ns2, Some(i)));
            assert(links_ok(rtree, ns0, Some(i))) by {
                match subz {
                    Tree::Nil => {}
                    Tree::Node { .. } => {
                        assert(links_ok(subz, ns0, t0.parent_rec(i, None)));
                    }
                }
            }
            assert forall|m: usize| rtree.contains_idx(m) implies m < ns2.len()
                && ns2[m as int] == ns0[m as int] by {
                match subz {
                    Tree::Nil => {}
                    Tree::Node { right, .. } => {
                        assert((*right).contains_idx(m));
                        assert(subz.contains_idx(m));
                    }
                }
                assert(t0.contains_idx(m));
                assert(m != i && m != j);
            }
            lemma_links_frame(rtree, ns0, ns2, Some(i));
            assert(links_ok(s2, ns2, t0.parent_rec(i, None)));
            assert(s2.uniq()) by {
                assert(!rtree.contains_idx(j)) by {
                    if rtree.contains_idx(j) {
                        match subz {
                            Tree::Nil => {}
                            Tree::Node { right, .. } => {
                                assert((*right).contains_idx(j));
                                assert(subz.contains_idx(j));
                            }
                        }
                        assert(t0.contains_idx(j));
                    }
                }
                assert(!rtree.contains_idx(i)) by {
                    match subz {
                        Tree::Nil => {}
                        Tree::Node { right, .. } => {
                            assert(subz.uniq());
                            assert(!right.contains_idx(i));
                        }
                    }
                }
                assert(i != j) by {
                    assert(t0.contains_idx(i));
                }
                assert(leaf == Tree::Nil.spec_insert(value, j));
                lemma_spec_insert_idxs(Tree::Nil, value, j);
                assert(leaf.uniq());
                assert(rtree.uniq()) by {
                    match subz {
                        Tree::Nil => {}
                        Tree::Node { .. } => {
                            assert(subz.uniq());
                        }
                    }
                }
                assert(leaf.contains_idx(j));
                assert forall|m: usize| !(leaf.contains_idx(m) && rtree.contains_idx(m)) by {
                    if leaf.contains_idx(m) {
                        assert(!Tree::Nil.contains_idx(m));
                        assert(m == j);
                    }
                }
            }
            assert forall|m: usize| #[trigger] leaf.contains_idx(m) implies m == j by {
                assert(!Tree::Nil.contains_idx(m));
            }
            assert forall|m: usize| s2.contains_idx(m) implies !(t0.contains_idx(m)
                && !subz.contains_idx(m)) by {
                assert(s2.contains_idx(m) == (m == i || leaf.contains_idx(m)
                    || rtree.contains_idx(m)));
                if m != j && m != i {
                    assert(rtree.contains_idx(m));
                    match subz {
                        Tree::Nil => {}
                        Tree::Node { right, .. } => {
                            assert((*right).contains_idx(m));
                            assert(subz.contains_idx(m));
                        }
                    }
                }
            }
            assert forall|m: usize| #[trigger] t0.contains_idx(m)
                && !subz.contains_idx(m) implies m < ns2.len() && (
                if t0.parent_rec(i, None) == Some(m) {
                    ns2[m as int].key == ns0[m as int].key
                    && ns2[m as int].parent == ns0[m as int].parent
                    && (if ns0[m as int].left == Some(i) {
                        ns2[m as int].left == s2.root_idx()
                            && ns2[m as int].right == ns0[m as int].right
                    } else {
                        ns2[m as int].left == ns0[m as int].left
                            && ns2[m as int].right == s2.root_idx()
                    })
                } else {
                    ns2[m as int] == ns0[m as int]
                }) by {
                assert(subz.contains_idx(i));
                assert(m != i);
                assert(m < ns0.len());
                assert(m != j);
                assert(s2.root_idx() == Some(i));
                if t0.parent_rec(i, None) == Some(m) {
                    lemma_parent_step(t0, i, None);
                    lemma_links_subtree(t0, ns0, None, m);
                    lemma_subtree_props(t0, m);
                    assert(ns0[m as int].left == t0.left_of(m));
                    assert(ns0[m as int].right == t0.right_of(m));
                    assert(t0.left_of(m) == Some(i) || t0.right_of(m) == Some(i));
                }
            }
            lemma_links_replace(t0, ns0, ns2, None, i, s2);
            lemma_replace_props(t0, i, s2);
            assert(self.wf());
            assert(self.shape@.contains_idx(i)) by {
                assert(s2.contains_idx(i));
            }
            assert(self.shape@.subtree_at(i) == s2) by {
                lemma_replace_subtree_self(t0, i, s2);
            }
            assert(self.left_of(i) == Some(j));
            assert(self.shape@.contains_idx(j)) by {
                assert(s2.contains_idx(j) == (j == i || leaf.contains_idx(j)
                    || rtree.contains_idx(j)));
                assert(s2.contains_idx(j));
            }
            assert(self.shape@.subtree_at(j) == leaf) by {
                lemma_subtree_trans(self.shape@, i, j);
                assert(s2.subtree_at(j) == leaf) by {
                    assert(leaf.contains_idx(j));
                    assert(!rtree.contains_idx(j));
                    assert(i != j);
                    assert(leaf.subtree_at(j) == leaf);
                    assert(s2.subtree_at(j) == leaf.subtree_at(j));
                }
            }
            assert(self.key_at(j) == value);
            assert(self.parent_of(j) == Some(i)) by {
                lemma_links_subtree(self.shape@, ns2, None, j);
                lemma_subtree_props(self.shape@, j);
                assert(ns2[j as int].parent == self.shape@.parent_rec(j, None));
            }
        }
    }

    /// Hangs a fresh node holding `value` as the right child of live
    /// slot `i`, in place of whatever right subtree was there; the
    /// previous right subtree becomes unreachable.  No ordering is
    /// checked: this is a raw construction tool.
    pub fn add_right_child(&mut self, i: usize, value: i32)
        requires
            old(self).wf(),
            old(self).has(i),
        ensures
            final(self).wf(),
            final(self).has(i),
            final(self).right_of(i) is Some,
            !old(self).has(final(self).right_of(i).unwrap()),
            final(self).key_at(final(self).right_of(i).unwrap()) == value,
            final(self).parent_of(final(self).right_of(i).unwrap()) == Some(i),
            final(self).shape() == old(self).shape().replace_at(i,
                old(self).shape().subtree_at(i).with_right((Tree::Node {
                    idx: final(self).right_of(i).unwrap(),
                    key: value,
                    left: Box::new(Tree::Nil),
                    right: Box::new(Tree::Nil),
                }))),
            final(self).root_of() == old(self).root_of(),
    {
        let ghost t0 = self.shape@;
        let ghost ns0 = self.nodes@;
        proof {
            self.lemma_at(i);
            lemma_subtree_props(t0, i);
            lemma_links_bound(t0, ns0, None);
        }
        let ghost subz = t0.subtree_at(i);
        let j = self.nodes.len();
        self.nodes.push(NodeRecord { key: value, parent: Some(i), left: None, right: None });
        self.nodes[i].right = Some(j);
        let ghost leaf = Tree::Node {
            idx: j,
            key: value,
            left: Box::new(Tree::Nil),
            right: Box::new(Tree::Nil),
        };
        let ghost s2 = subz.with_right(leaf);
        self.shape = Ghost(t0.replace_at(i, s2));
        proof {
            let ns2 = self.nodes@;
            let ghost ltree = (match subz {
                Tree::Nil => Tree::Nil,
                Tree::Node { left, .. } => *left,
            });
            assert(s2 == Tree::Node {
                idx: i,
                key: t0.key_at(i),
                left: Box::new(ltree),
                right: Box::new(leaf),
            });
            assert(links_ok(Tree::Nil, ns2, Some(j)));
            assert(links_ok(leaf, ns2, Some(i)));
            assert(links_ok(ltree, ns0, Some(i))) by {
                match subz {
                    Tree::Nil => {}
                    Tree::Node { .. } => {
                        assert(links_ok(subz, ns0, t0.parent_rec(i, None)));
                    }
                }
            }
            assert forall|m: usize| ltree.contains_idx(m) implies m < ns2.len()
                && ns2[m as int] == ns0[m as int] by {
                match subz {
                    Tree::Nil => {}
                    Tree::Node { left, .. } => {
                        assert((*left).contains_idx(m));
                        assert(subz.contains_idx(m));
                    }
                }
                assert(t0.contains_idx(m));
                assert(m != i && m != j);
            }
            lemma_links_frame(ltree, ns0, ns2, Some(i));
            assert(links_ok(s2, ns2, t0.parent_rec(i, None)));
            assert(s2.uniq()) by {
                assert(!ltree.contains_idx(j)) by {
                    if ltree.contains_idx(j) {
                        match subz {
                            Tree::Nil => {}
                            Tree::Node { left, .. } => {
                                assert((*left).contains_idx(j));
                                assert(subz.contains_idx(j));
                            }
                        }
                        assert(t0.contains_idx(j));
                    }
                }
                assert(!ltree.contains_idx(i)) by {
                    match subz {
                        Tree::Nil => {}
                        Tree::Node { left, .. } => {
                            assert(subz.uniq());
                            assert(!left.contains_idx(i));
                        }
                    }
                }
                assert(i != j) by {
                    assert(t0.contains_idx(i));
                }
                assert(leaf == Tree::Nil.spec_insert(value, j));
                lemma_spec_insert_idxs(Tree::Nil, value, j);
                assert(leaf.uniq());
                assert(ltree.uniq()) by {
                    match subz {
                        Tree::Nil => {}
                        Tree::Node { .. } => {
                            assert(subz.uniq());
                        }
                    }
                }
                assert(leaf.contains_idx(j));
                assert forall|m: usize| !(ltree.contains_idx(m) && leaf.contains_idx(m)) by {
                    if leaf.contains_idx(m) {
                        assert(!Tree::Nil.contains_idx(m));
                        assert(m == j);
                    }
                }
            }
            assert forall|m: usize| #[trigger] leaf.contains_idx(m) implies m == j by {
                assert(!Tree::Nil.contains_idx(m));
            }
            assert forall|m: usize| s2.contains_idx(m) implies !(t0.contains_idx(m)
                && !subz.contains_idx(m)) by {
                assert(s2.contains_idx(m) == (m == i || ltree.contains_idx(m)
                    || leaf.contains_idx(m)));
                if m != j && m != i {
                    assert(ltree.contains_idx(m));
                    match subz {
                        Tree::Nil => {}
                        Tree::Node { left, .. } => {
                            assert((*left).contains_idx(m));
                            assert(subz.contains_idx(m));
                        }
                    }
                }
            }
            assert forall|m: usize| #[trigger] t0.contains_idx(m)
                && !subz.contains_idx(m) implies m < ns2.len() && (
                if t0.parent_rec(i, None) == Some(m) {
                    ns2[m as int].key == ns0[m as int].key
                    && ns2[m as int].parent == ns0[m as int].parent
                    && (if ns0[m as int].left == Some(i) {
                        ns2[m as int].left == s2.root_idx()
                            && ns2[m as int].right == ns0[m as int].right
                    } else {
                        ns2[m as int].left == ns0[m as int].left
                            && ns2[m as int].right == s2.root_idx()
                    })
                } else {
                    ns2[m as int] == ns0[m as int]
                }) by {
                assert(subz.contains_idx(i));
                assert(m != i);
                assert(m < ns0.len());
                assert(m != j);
                assert(s2.root_idx() == Some(i));
                if t0.parent_rec(i, None) == Some(m) {
                    lemma_parent_step(t0, i, None);
                    lemma_links_subtree(t0, ns0, None, m);
                    lemma_subtree_props(t0, m);
                    assert(ns0[m as int].left == t0.left_of(m));
                    assert(ns0[m as int].right == t0.right_of(m));
                    assert(t0.left_of(m) == Some(i) || t0.right_of(m) == Some(i));
                }
            }
            lemma_links_replace(t0, ns0, ns2, None, i, s2);
            lemma_replace_props(t0, i, s2);
            assert(self.wf());
            assert(self.shape@.contains_idx(i)) by {
                assert(s2.contains_idx(i));
            }
            assert(self.shape@.subtree_at(i) == s2) by {
                lemma_replace_subtree_self(t0, i, s2);
            }
            assert(self.right_of(i) == Some(j));
            assert(self.shape@.contains_idx(j)) by {
                assert(s2.contains_idx(j) == (j == i || ltree.contains_idx(j)
                    || leaf.contains_idx(j)));
                assert(s2.contains_idx(j));
            }
            assert(self.shape@.subtree_at(j) == leaf) by {
                lemma_subtree_trans(self.shape@, i, j);
                assert(s2.subtree_at(j) == leaf) by {
                    assert(leaf.contains_idx(j));
                    assert(!ltree.contains_idx(j));
                    assert(i != j);
                    assert(leaf.subtree_at(j) == leaf);
                    assert(s2.subtree_at(j) == leaf.subtree_at(j));
                }
            }
            assert(self.key_at(j) == value);
            assert(self.parent_of(j) == Some(i)) by {
                lemma_links_subtree(self.shape@, ns2, None, j);
                lemma_subtree_props(self.shape@, j);
                assert(ns2[j as int].parent == self.shape@.parent_rec(j, None));
            }
        }
    }

    /// The in-order successor of the node in live slot `i`: the node
    /// holding the smallest key strictly greater than `i`'s key, found
    /// through the minimum of the right subtree or the first ancestor
    /// reached from a left child.  When `i` holds the largest key of the
    /// whole tree, `i` itself is handed back.
    #[verifier::rlimit(60)]
    pub fn tree_successor(&self, i: usize) -> (r: usize)
        requires
            self.wf(),
            self.ordered(),
            self.has(i),
        ensures
            self.has(r),
            (exists|m: int| 0 <= m < self.inorder().len()
                && #[trigger] self.inorder()[m] > self.key_at(i)) ==> (
                r != i
                && self.key_at(r) > self.key_at(i)
                && self.inorder().contains(self.key_at(r))
                && forall|m: int| 0 <= m < self.inorder().len()
                    && #[trigger] self.inorder()[m] > self.key_at(i)
                    ==> self.key_at(r) <= self.inorder()[m]
            ),
            (forall|m: int| 0 <= m < self.inorder().len()
                ==> #[trigger] self.inorder()[m] <= self.key_at(i)) ==> r == i,
    {
        let ghost t0 = self.shape@;
        let ghost ki = t0.key_at(i);
        let ghost whole = t0.inorder();
        proof {
            self.lemma_at(i);
            lemma_ctx_child(t0, i);
            lemma_decompose(t0, i);
            lemma_ordered_sorted(t0);
            lemma_subtree_props(t0, i);
        }
        let nd = self.nodes[i];
        match nd.right {
            Some(rc) => {
                proof {
                    match t0.subtree_at(i) {
                        Tree::Nil => {}
                        Tree::Node { left, right, .. } => {
                            assert(t0.subtree_at(rc) == *right);
                            lemma_subtree_props(t0, rc);
                        }
                    }
                }
                let r = self.minimum(rc);
                proof {
                    let sub = t0.subtree_at(i);
                    match sub {
                        Tree::Nil => {}
                        Tree::Node { left, right, .. } => {
                            let pos = t0.ctx_left(i).len() + left.inorder().len() as int;
                            assert(whole == t0.ctx_left(i) + sub.inorder() + t0.ctx_right(i));
                            assert(sub.inorder() == left.inorder() + seq![ki] + right.inorder());
                            assert(whole[pos] == ki);
                            assert((*right).inorder().len() > 0);
                            assert(whole[pos + 1] == (*right).inorder()[0]);
                            assert(t0.key_at(r) == (*right).inorder()[0]);
                            assert(whole.contains(t0.key_at(r))) by {
                                assert(0 <= pos + 1 < whole.len());
                            }
                            assert(whole[pos] < whole[pos + 1]);
                            assert(exists|m: int| 0 <= m < whole.len()
                                && #[trigger] whole[m] > ki) by {
                                assert(0 <= pos + 1 < whole.len());
                                assert(whole[pos + 1] > ki);
                            }
                            assert forall|m: int| 0 <= m < whole.len() && #[trigger] whole[m] > ki
                                implies t0.key_at(r) <= whole[m] by {
                                if m <= pos {
                                    assert(whole[m] <= whole[pos]);
                                }
                            }
                            assert(r != i) by {
                                if r == i {
                                    assert(t0.key_at(r) == ki);
                                }
                            }
                        }
                    }
                }
                r
            }
            None => {
                let mut cur: usize = i;
                let mut res: usize = i;
                proof {
                    match t0.subtree_at(i) {
                        Tree::Nil => {}
                        Tree::Node { left, right, .. } => {
                            assert((*right).inorder() =~= Seq::<i32>::empty());
                            assert(t0.subtree_at(i).inorder()
                                =~= left.inorder() + seq![ki]);
                        }
                    }
                }
                loop
                    invariant
                        self.wf(),
                        self.ordered(),
                        t0 == self.shape@,
                        whole == t0.inorder(),
                        self.has(i),
                        self.has(cur),
                        ki == t0.key_at(i),
                        t0.subtree_at(cur).inorder().len() > 0,
                        t0.subtree_at(cur).inorder().last() == ki,
                    ensures
                        self.has(res),
                        (exists|m: int| 0 <= m < whole.len() && #[trigger] whole[m] > ki) ==> (
                            res != i
                            && t0.key_at(res) > ki
                            && whole.contains(t0.key_at(res))
                            && forall|m: int| 0 <= m < whole.len() && #[trigger] whole[m] > ki
                                ==> t0.key_at(res) <= whole[m]
                        ),
                        (forall|m: int| 0 <= m < whole.len() ==> #[trigger] whole[m] <= ki)
                            ==> res == i,
                    decreases t0.depth_of(cur),
                {
                    proof {
                        self.lemma_at(cur);
                        lemma_parent_step(t0, cur, None);
                        lemma_decompose(t0, cur);
                        lemma_ordered_sorted(t0);
                    }
                    let ndc = self.nodes[cur];
                    match ndc.parent {
                        None => {
                            proof {
                                assert(t0.root_idx() == Some(cur));
                                assert(t0.subtree_at(cur) == t0);
                                assert(whole.len() > 0);
                                assert(whole.last() == ki);
                                assert forall|m: int| 0 <= m < whole.len()
                                    implies #[trigger] whole[m] <= ki by {
                                    if m < whole.len() - 1 {
                                        assert(whole[m] < whole[whole.len() - 1]);
                                    }
                                }
                            }
                            res = i;
                            break;
                        }
                        Some(p) => {
                            proof {
                                assert(t0.parent_of(cur) == Some(p));
                                assert(t0.contains_idx(p));
                                self.lemma_at(p);
                                lemma_ctx_child(t0, p);
                                lemma_decompose(t0, p);
                            }
                            let ndp = self.nodes[p];
                            let is_left = match ndp.left {
                                Some(lc) => lc == cur,
                                None => false,
                            };
                            if is_left {
                                proof {
                                    let subp = t0.subtree_at(p);
                                    let kp = t0.key_at(p);
                                    match subp {
                                        Tree::Nil => {}
                                        Tree::Node { left, right, .. } => {
                                            assert(t0.subtree_at(cur) == *left);
                                            assert(t0.ctx_right(cur) == seq![kp]
                                                + right.inorder() + t0.ctx_right(p));
                                            let pos = t0.ctx_left(cur).len()
                                                + t0.subtree_at(cur).inorder().len() - 1;
                                            assert(whole == t0.ctx_left(cur)
                                                + t0.subtree_at(cur).inorder()
                                                + t0.ctx_right(cur));
                                            assert(whole[pos] == ki);
                                            assert(whole[pos + 1] == kp);
                                            assert(whole[pos] < whole[pos + 1]);
                                            assert(whole.contains(kp)) by {
                                                assert(0 <= pos + 1 < whole.len());
                                            }
                                            assert forall|m: int| 0 <= m < whole.len()
                                                && #[trigger] whole[m] > ki
                                                implies kp <= whole[m] by {
                                                if m <= pos {
                                                    assert(whole[m] <= whole[pos]);
                                                }
                                            }
                                            assert(p != i) by {
                                                if p == i {
                                                    assert(t0.key_at(p) == ki);
                                                }
                                            }
                                        }
                                    }
                                }
                                res = p;
                                break;
                            } else {
                                proof {
                                    let subp = t0.subtree_at(p);
                                    let kp = t0.key_at(p);
                                    assert(ndp.right == Some(cur));
                                    match subp {
                                        Tree::Nil => {}
                                        Tree::Node { left, right, .. } => {
                                            assert(t0.subtree_at(cur) == *right);
                                            assert(subp.inorder() == left.inorder() + seq![kp]
                                                + t0.subtree_at(cur).inorder());
                                            assert(subp.inorder().len() > 0);
                                            assert(subp.inorder().last() == ki);
                                        }
                                    }
                                    assert(t0.depth_of(p) < t0.depth_of(cur));
                                }
                                cur = p;
                            }
                        }
                    }
                }
                res
            }
        }
    }

    /// The in-order successor once more, as the compact loop that tests
    /// whether the current node is still a right child; it finds the
    /// same node as `tree_successor`.
    #[verifier::rlimit(60)]
    pub fn tree_successor_simpler(&self, i: usize) -> (r: usize)
        requires
            self.wf(),
            self.ordered(),
            self.has(i),
        ensures
            self.has(r),
            (exists|m: int| 0 <= m < self.inorder().len()
                && #[trigger] self.inorder()[m] > self.key_at(i)) ==> (
                r != i
                && self.key_at(r) > self.key_at(i)
                && self.inorder().contains(self.key_at(r))
                && forall|m: int| 0 <= m < self.inorder().len()
                    && #[trigger] self.inorder()[m] > self.key_at(i)
                    ==> self.key_at(r) <= self.inorder()[m]
            ),
            (forall|m: int| 0 <= m < self.inorder().len()
                ==> #[trigger] self.inorder()[m] <= self.key_at(i)) ==> r == i,
    {
        let ghost t0 = self.shape@;
        let ghost ki = t0.key_at(i);
        let ghost whole = t0.inorder();
        proof {
            self.lemma_at(i);
            lemma_ctx_child(t0, i);
            lemma_decompose(t0, i);
            lemma_ordered_sorted(t0);
            lemma_subtree_props(t0, i);
        }
        let nd = self.nodes[i];
        if nd.right.is_some() {
            let rc = nd.right.unwrap();
            proof {
                match t0.subtree_at(i) {
                    Tree::Nil => {}
                    Tree::Node { left, right, .. } => {
                        assert(t0.subtree_at(rc) == *right);
                        lemma_subtree_props(t0, rc);
                    }
                }
            }
            let r = self.minimum(rc);
            proof {
                let sub = t0.subtree_at(i);
                match sub {
                    Tree::Nil => {}
                    Tree::Node { left, right, .. } => {
                        let pos = t0.ctx_left(i).len() + left.inorder().len() as int;
                        assert(whole == t0.ctx_left(i) + sub.inorder() + t0.ctx_right(i));
                        assert(sub.inorder() == left.inorder() + seq![ki] + right.inorder());
                        assert(whole[pos] == ki);
                        assert((*right).inorder().len() > 0);
                        assert(whole[pos + 1] == (*right).inorder()[0]);
                        assert(t0.key_at(r) == (*right).inorder()[0]);
                        assert(whole.contains(t0.key_at(r))) by {
                            assert(0 <= pos + 1 < whole.len());
                        }
                        assert(whole[pos] < whole[pos + 1]);
                        assert(exists|m: int| 0 <= m < whole.len()
                            && #[trigger] whole[m] > ki) by {
                            assert(0 <= pos + 1 < whole.len());
                            assert(whole[pos + 1] > ki);
                        }
                        assert forall|m: int| 0 <= m < whole.len() && #[trigger] whole[m] > ki
                            implies t0.key_at(r) <= whole[m] by {
                            if m <= pos {
                                assert(whole[m] <= whole[pos]);
                            }
                        }
                        assert(r != i) by {
                            if r == i {
                                assert(t0.key_at(r) == ki);
                            }
                        }
                    }
                }
            }
            return r;
        }
        let mut cur: usize = i;
        let mut res: usize = i;
        proof {
            match t0.subtree_at(i) {
                Tree::Nil => {}
                Tree::Node { left, right, .. } => {
                    assert((*right).inorder() =~= Seq::<i32>::empty());
                    assert(t0.subtree_at(i).inorder() =~= left.inorder() + seq![ki]);
                }
            }
        }
        loop
            invariant
                self.wf(),
                self.ordered(),
                t0 == self.shape@,
                whole == t0.inorder(),
                self.has(i),
                self.has(cur),
                ki == t0.key_at(i),
                t0.subtree_at(cur).inorder().len() > 0,
                t0.subtree_at(cur).inorder().last() == ki,
            ensures
                self.has(res),
                (exists|m: int| 0 <= m < whole.len() && #[trigger] whole[m] > ki) ==> (
                    res != i
                    && t0.key_at(res) > ki
                    && whole.contains(t0.key_at(res))
                    && forall|m: int| 0 <= m < whole.len() && #[trigger] whole[m] > ki
                        ==> t0.key_at(res) <= whole[m]
                ),
                (forall|m: int| 0 <= m < whole.len() ==> #[trigger] whole[m] <= ki)
                    ==> res == i,
            decreases t0.depth_of(cur),
        {
            proof {
                self.lemma_at(cur);
                lemma_parent_step(t0, cur, None);
                lemma_decompose(t0, cur);
                lemma_ordered_sorted(t0);
            }
            let ndc = self.nodes[cur];
            match ndc.parent {
                None => {
                    proof {
                        assert(t0.root_idx() == Some(cur));
                        assert(t0.subtree_at(cur) == t0);
                        assert(whole.len() > 0);
                        assert(whole.last() == ki);
                        assert forall|m: int| 0 <= m < whole.len()
                            implies #[trigger] whole[m] <= ki by {
                            if m < whole.len() - 1 {
                                assert(whole[m] < whole[whole.len() - 1]);
                            }
                        }
                    }
                    res = i;
                    break;
                }
                Some(p) => {
                    proof {
                        assert(t0.parent_of(cur) == Some(p));
                        assert(t0.contains_idx(p));
                        self.lemma_at(p);
                        lemma_ctx_child(t0, p);
                        lemma_decompose(t0, p);
                    }
                    let ndp = self.nodes[p];
                    let still_right = match ndp.right {
                        Some(rcn) => rcn == cur,
                        None => false,
                    };
                    if still_right {
                        proof {
                            let subp = t0.subtree_at(p);
                            let kp = t0.key_at(p);
                            match subp {
                                Tree::Nil => {}
                                Tree::Node { left, right, .. } => {
                                    assert(t0.subtree_at(cur) == *right);
                                    assert(subp.inorder() == left.inorder() + seq![kp]
                                        + t0.subtree_at(cur).inorder());
                                    assert(subp.inorder().len() > 0);
                                    assert(subp.inorder().last() == ki);
                                }
                            }
                            assert(t0.depth_of(p) < t0.depth_of(cur));
                        }
                        cur = p;
                    } else {
                        proof {
                            let subp = t0.subtree_at(p);
                            let kp = t0.key_at(p);
                            assert(ndp.left == Some(cur));
                            match subp {
                                Tree::Nil => {}
                                Tree::Node { left, right, .. } => {
                                    assert(t0.subtree_at(cur) == *left);
                                    assert(t0.ctx_right(cur) == seq![kp]
                                        + right.inorder() + t0.ctx_right(p));
                                    let pos = t0.ctx_left(cur).len()
                                        + t0.subtree_at(cur).inorder().len() - 1;
                                    assert(whole == t0.ctx_left(cur)
                                        + t0.subtree_at(cur).inorder()
                                        + t0.ctx_right(cur));
                                    assert(whole[pos] == ki);
                                    assert(whole[pos + 1] == kp);
                                    assert(whole[pos] < whole[pos + 1]);
                                    assert(whole.contains(kp)) by {
                                        assert(0 <= pos + 1 < whole.len());
                                    }
                                    assert forall|m: int| 0 <= m < whole.len()
                                        && #[trigger] whole[m] > ki
                                        implies kp <= whole[m] by {
                                        if m <= pos {
                                            assert(whole[m] <= whole[pos]);
                                        }
                                    }
                                    assert(p != i) by {
                                        if p == i {
                                            assert(t0.key_at(p) == ki);
                                        }
                                    }
                                }
                            }
                        }
                        res = p;
                        break;
                    }
                }
            }
        }
        res
    }

    /// The stored root handle of the live tree.
    pub fn root_link(&self) -> (r: Option<usize>)
        requires
            self.wf(),
        ensures
            r == self.root_of(),
    {
        self.root
    }

    /// The keys of the live tree in traversal order, as plain values.
    pub fn inorder_keys(&self) -> (v: Vec<i32>)
        requires
            self.wf(),
        ensures
            v@ == self.inorder(),
    {
        let mut v: Vec<i32> = Vec::new();
        match self.root {
            None => {
                proof {
                    assert(self.shape@ is Nil);
                    assert(self.inorder() =~= Seq::<i32>::empty());
                }
            }
            Some(ri) => {
                proof {
                    assert(self.shape@.contains_idx(ri));
                    assert(self.shape@.subtree_at(ri) == self.shape@);
                }
                self.collect_inorder(ri, &mut v);
                proof {
                    assert(v@ =~= self.inorder());
                }
            }
        }
        v
    }
}

} // verus!
