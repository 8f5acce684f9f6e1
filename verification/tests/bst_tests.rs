use bst::BstNode;

/// The sample tree: keys inserted in the order
/// 15, 6, 18, 17, 20, 3, 7, 2, 4, 13, 9; the constructor's node is 15
/// and sits in slot 0.
fn sample() -> BstNode {
    let mut t = BstNode::new_bst_nodelink(15);
    for k in [6, 18, 17, 20, 3, 7, 2, 4, 13, 9] {
        assert!(t.tree_insert(k).is_some());
    }
    t
}

fn find(t: &BstNode, key: i32) -> usize {
    t.tree_search(t.root_link().unwrap(), key)
        .expect("key should be present")
}

fn is_sorted(v: &[i32]) -> bool {
    v.windows(2).all(|w| w[0] < w[1])
}

#[test]
fn ordering_invariant_after_inserts() {
    let t = sample();
    let keys = t.inorder_keys();
    assert_eq!(keys, vec![2, 3, 4, 6, 7, 9, 13, 15, 17, 18, 20]);
    assert!(is_sorted(&keys));
}

#[test]
fn insert_search_round_trip() {
    let mut t = sample();
    let j = t.tree_insert(11);
    assert!(j.is_some());
    let found = t.tree_search(t.root_link().unwrap(), 11);
    assert_eq!(found, j);
    assert_eq!(t.get_bst_nodelink_copy(found.unwrap()).key, 11);
}

#[test]
fn duplicate_insert_rejected() {
    let mut t = sample();
    let before = t.inorder_keys();
    assert!(t.tree_insert(7).is_none());
    assert_eq!(t.inorder_keys(), before);
}

#[test]
fn minimum_maximum_against_traversal() {
    let t = sample();
    let keys = t.inorder_keys();
    let lo = t.minimum(t.root_link().unwrap());
    let hi = t.maximum(t.root_link().unwrap());
    assert_eq!(t.get_bst_nodelink_copy(lo).key, *keys.first().unwrap());
    assert_eq!(t.get_bst_nodelink_copy(hi).key, *keys.last().unwrap());
    assert_eq!(t.get_bst_nodelink_copy(lo).key, *keys.iter().min().unwrap());
    assert_eq!(t.get_bst_nodelink_copy(hi).key, *keys.iter().max().unwrap());
}

#[test]
fn minimum_correct_and_maximum_correct_agree() {
    let t = sample();
    let root = t.root_link().unwrap();
    assert_eq!(t.minimum(root), t.minimum_correct(root));
    assert_eq!(t.maximum(root), t.maximum_correct(root));
    let n18 = find(&t, 18);
    assert_eq!(t.minimum(n18), t.minimum_correct(n18));
    assert_eq!(t.maximum(n18), t.maximum_correct(n18));
}

#[test]
fn search_variants_agree() {
    let t = sample();
    let root = t.root_link().unwrap();
    for k in 0..25 {
        let a = t.tree_search(root, k);
        let b = t.tree_search_correct(root, k);
        assert_eq!(a.is_some(), b.is_some());
        if let (Some(x), Some(y)) = (a, b) {
            assert_eq!(t.get_bst_nodelink_copy(x).key, k);
            assert_eq!(t.get_bst_nodelink_copy(y).key, k);
        }
    }
}

#[test]
fn successor_is_next_traversal_key() {
    let t = sample();
    let keys = t.inorder_keys();
    for (pos, &k) in keys.iter().enumerate() {
        let n = find(&t, k);
        let s = t.tree_successor(n);
        if pos + 1 < keys.len() {
            assert_eq!(t.get_bst_nodelink_copy(s).key, keys[pos + 1]);
        } else {
            assert_eq!(s, n);
        }
    }
}

#[test]
fn successor_simpler_agrees() {
    let t = sample();
    for &k in t.inorder_keys().iter() {
        let n = find(&t, k);
        assert_eq!(t.tree_successor(n), t.tree_successor_simpler(n));
    }
}

#[test]
fn delete_reduces_count_and_keeps_order() {
    let mut t = sample();
    let before = t.inorder_keys();
    let n6 = find(&t, 6);
    assert!(t.tree_delete(n6));
    let after = t.inorder_keys();
    assert_eq!(after.len(), before.len() - 1);
    assert!(is_sorted(&after));
    let expect: Vec<i32> = before.into_iter().filter(|&k| k != 6).collect();
    assert_eq!(after, expect);
}

#[test]
fn scenario_build_search_insert_min_max() {
    let mut t = sample();
    let root = t.root_link().unwrap();
    assert!(t.tree_search(root, 8).is_none());
    assert!(t.tree_insert(8).is_some());
    assert!(t.tree_search(root, 8).is_some());
    let lo = t.minimum(root);
    let hi = t.maximum(root);
    assert_eq!(t.get_bst_nodelink_copy(lo).key, 2);
    assert_eq!(t.get_bst_nodelink_copy(hi).key, 20);
}

#[test]
fn scenario_successors() {
    let t = sample();
    let n15 = find(&t, 15);
    assert_eq!(t.get_bst_nodelink_copy(t.tree_successor(n15)).key, 17);
    let lo = t.minimum(t.root_link().unwrap());
    assert_eq!(t.get_bst_nodelink_copy(lo).key, 2);
    assert_eq!(t.get_bst_nodelink_copy(t.tree_successor(lo)).key, 3);
}

#[test]
fn scenario_transplant_thirteen_with_nine() {
    let mut t = sample();
    let n13 = find(&t, 13);
    let n9 = find(&t, 9);
    let old_parent = t.get_bst_nodelink_copy(n13).parent;
    assert!(t.transplant(n13, Some(n9)));
    assert!(t.tree_search(t.root_link().unwrap(), 13).is_none());
    assert_eq!(t.get_bst_nodelink_copy(n9).parent, old_parent);
    assert!(is_sorted(&t.inorder_keys()));
}

#[test]
fn scenario_delete_node_seven() {
    let mut t = sample();
    let before = t.inorder_keys();
    let n7 = find(&t, 7);
    let n13 = find(&t, 13);
    let n6 = find(&t, 6);
    assert!(t.tree_delete(n7));
    let after = t.inorder_keys();
    assert!(is_sorted(&after));
    let expect: Vec<i32> = before.into_iter().filter(|&k| k != 7).collect();
    assert_eq!(after, expect);
    // the subtree that replaced node 7 hangs where 7 hung
    assert_eq!(t.get_bst_nodelink_copy(n13).parent, Some(n6));
}

#[test]
fn delete_two_child_root_moves_successor_up() {
    let mut t = sample();
    let n15 = find(&t, 15);
    let n17 = find(&t, 17);
    let n6 = find(&t, 6);
    assert!(t.tree_delete(n15));
    // the in-order successor 17 took the root position
    assert_eq!(t.root_link(), Some(n17));
    assert_eq!(t.get_root(n6), n17);
    assert_eq!(t.get_bst_nodelink_copy(n17).parent, None);
    let after = t.inorder_keys();
    assert!(is_sorted(&after));
    assert_eq!(after, vec![2, 3, 4, 6, 7, 9, 13, 17, 18, 20]);
}

#[test]
fn delete_leaf_node() {
    let mut t = sample();
    let n2 = find(&t, 2);
    assert!(t.tree_delete(n2));
    assert_eq!(t.inorder_keys(), vec![3, 4, 6, 7, 9, 13, 15, 17, 18, 20]);
}

#[test]
fn delete_by_key_present_and_missing() {
    let mut t = sample();
    let before = t.inorder_keys();
    assert!(!t.tree_delete_with_key(42));
    assert_eq!(t.inorder_keys(), before);
    assert!(t.tree_delete_with_key(18));
    let expect: Vec<i32> = before.into_iter().filter(|&k| k != 18).collect();
    assert_eq!(t.inorder_keys(), expect);
}

#[test]
fn delete_all_then_reinsert() {
    let mut t = BstNode::new_bst_nodelink(2);
    t.tree_insert(1);
    t.tree_insert(3);
    for k in [2, 1, 3] {
        assert!(t.tree_delete_with_key(k));
    }
    assert!(t.inorder_keys().is_empty());
    assert!(t.root_link().is_none());
    let j = t.tree_insert(5);
    assert!(j.is_some());
    assert_eq!(t.root_link(), j);
    assert_eq!(t.inorder_keys(), vec![5]);
}

#[test]
fn transplant_with_absent_node_prunes_subtree() {
    let mut t = sample();
    let n3 = find(&t, 3);
    assert!(t.transplant(n3, None));
    assert_eq!(t.inorder_keys(), vec![6, 7, 9, 13, 15, 17, 18, 20]);
}

#[test]
fn add_children_attach_below_parent() {
    let mut t = BstNode::new_bst_nodelink(10);
    t.add_left_child(0, 5);
    t.add_right_child(0, 20);
    let root = t.get_bst_nodelink_copy(0);
    let l = root.left.unwrap();
    let r = root.right.unwrap();
    assert_eq!(t.get_bst_nodelink_copy(l).key, 5);
    assert_eq!(t.get_bst_nodelink_copy(r).key, 20);
    assert_eq!(t.get_bst_nodelink_copy(l).parent, Some(0));
    assert_eq!(t.get_bst_nodelink_copy(r).parent, Some(0));
    assert_eq!(t.inorder_keys(), vec![5, 10, 20]);
    // attaching again discards the previous subtree
    t.add_left_child(0, 4);
    assert_eq!(t.inorder_keys(), vec![4, 10, 20]);
}

#[test]
fn get_root_climbs_to_the_top() {
    let t = sample();
    let n2 = find(&t, 2);
    let n20 = find(&t, 20);
    assert_eq!(t.get_root(n2), t.root_link().unwrap());
    assert_eq!(t.get_root(n20), t.root_link().unwrap());
    assert_eq!(t.get_root(t.root_link().unwrap()), t.root_link().unwrap());
}

#[test]
fn node_copy_exposes_links() {
    let t = sample();
    let root = t.get_bst_nodelink_copy(t.root_link().unwrap());
    assert_eq!(root.key, 15);
    assert_eq!(root.parent, None);
    assert_eq!(t.get_bst_nodelink_copy(root.left.unwrap()).key, 6);
    assert_eq!(t.get_bst_nodelink_copy(root.right.unwrap()).key, 18);
}

#[test]
fn search_in_subtree_only() {
    let t = sample();
    let n18 = find(&t, 18);
    // 6 sits in the tree but not under 18
    assert!(t.tree_search(n18, 6).is_none());
    assert!(t.tree_search(n18, 20).is_some());
}
