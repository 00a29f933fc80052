use bst::{BstNode, BstTree};

fn build(keys: &[i32]) -> (BstTree, Vec<usize>) {
    let mut tree = BstTree::new();
    let mut handles = Vec::new();
    for &k in keys {
        let z = BstNode::new_bst_nodelink(&mut tree, k);
        BstNode::tree_insert(&mut tree, z);
        handles.push(z);
    }
    (tree, handles)
}

fn key(tree: &BstTree, i: usize) -> i32 {
    tree.node(i).key.unwrap()
}

fn check_links(tree: &BstTree) {
    let mut stack: Vec<usize> = tree.root().into_iter().collect();
    if let Some(r) = tree.root() {
        assert_eq!(tree.node(r).parent, None);
    }
    while let Some(i) = stack.pop() {
        let n = tree.node(i);
        if let Some(l) = n.left {
            assert_eq!(tree.node(l).parent, Some(i));
            stack.push(l);
        }
        if let Some(r) = n.right {
            assert_eq!(tree.node(r).parent, Some(i));
            stack.push(r);
        }
    }
}

const SAMPLE: [i32; 7] = [15, 6, 18, 3, 7, 17, 20];

#[test]
fn sample_inorder() {
    let (tree, _) = build(&SAMPLE);
    assert_eq!(tree.inorder_keys(), vec![3, 6, 7, 15, 17, 18, 20]);
    check_links(&tree);
}

#[test]
fn sample_successors() {
    let (tree, h) = build(&SAMPLE);
    let s6 = BstNode::tree_successor(&tree, h[1]).unwrap();
    assert_eq!(key(&tree, s6), 7);
    let s18 = BstNode::tree_successor(&tree, h[2]).unwrap();
    assert_eq!(key(&tree, s18), 20);
    assert_eq!(BstNode::tree_successor(&tree, h[6]), None);
    let s7 = BstNode::tree_successor(&tree, h[4]).unwrap();
    assert_eq!(s7, h[0]);
}

#[test]
fn sample_successors_simpler() {
    let (tree, h) = build(&SAMPLE);
    for &x in &h {
        assert_eq!(
            BstNode::tree_successor_simpler(&tree, x),
            BstNode::tree_successor(&tree, x)
        );
    }
    assert_eq!(BstNode::tree_successor_simpler(&tree, h[6]), None);
}

#[test]
fn sample_min_max() {
    let (tree, _) = build(&SAMPLE);
    let root = tree.root().unwrap();
    assert_eq!(key(&tree, BstNode::minimum(&tree, root)), 3);
    assert_eq!(key(&tree, BstNode::maximum(&tree, root)), 20);
}

#[test]
fn sample_delete_two_children() {
    let (mut tree, h) = build(&SAMPLE);
    BstNode::tree_delete(&mut tree, h[1]);
    assert_eq!(tree.inorder_keys(), vec![3, 7, 15, 17, 18, 20]);
    let root = tree.root().unwrap();
    assert_eq!(root, h[0]);
    assert_eq!(tree.node(root).left, Some(h[4]));
    assert_eq!(tree.node(h[4]).left, Some(h[3]));
    assert_eq!(tree.node(h[4]).parent, Some(root));
    assert_eq!(tree.node(h[3]).parent, Some(h[4]));
    check_links(&tree);
}

#[test]
fn single_node_min_max_root() {
    let (tree, h) = build(&[42]);
    assert_eq!(tree.root(), Some(h[0]));
    assert_eq!(BstNode::minimum(&tree, h[0]), h[0]);
    assert_eq!(BstNode::maximum(&tree, h[0]), h[0]);
    assert_eq!(BstNode::get_root(&tree, h[0]), h[0]);
    assert_eq!(BstNode::tree_successor(&tree, h[0]), None);
}

#[test]
fn empty_tree() {
    let tree = BstTree::new();
    assert_eq!(tree.root(), None);
    assert_eq!(tree.inorder_keys(), Vec::<i32>::new());
    assert_eq!(tree.node_count(), 0);
}

#[test]
fn search_found_and_absent() {
    let (tree, h) = build(&SAMPLE);
    let root = tree.root().unwrap();
    for (i, &k) in SAMPLE.iter().enumerate() {
        assert_eq!(BstNode::tree_search(&tree, root, &k), Some(h[i]));
    }
    for k in [0, 4, 16, 19, 21, -5] {
        assert_eq!(BstNode::tree_search(&tree, root, &k), None);
    }
    // a search below a node looks only in its subtree
    assert_eq!(BstNode::tree_search(&tree, h[2], &6), None);
    assert_eq!(BstNode::tree_search(&tree, h[1], &7), Some(h[4]));
}

#[test]
fn get_root_from_leaves() {
    let (tree, h) = build(&SAMPLE);
    for &x in &h {
        assert_eq!(BstNode::get_root(&tree, x), h[0]);
    }
}

#[test]
fn min_max_of_subtrees() {
    let (tree, h) = build(&SAMPLE);
    assert_eq!(BstNode::minimum(&tree, h[2]), h[5]);
    assert_eq!(BstNode::maximum(&tree, h[1]), h[4]);
    assert_eq!(BstNode::minimum(&tree, h[4]), h[4]);
}

#[test]
fn duplicates_go_right() {
    let (tree, h) = build(&[5, 5, 5]);
    assert_eq!(tree.inorder_keys(), vec![5, 5, 5]);
    assert_eq!(tree.node(h[0]).right, Some(h[1]));
    assert_eq!(tree.node(h[1]).right, Some(h[2]));
    assert_eq!(tree.node(h[0]).left, None);
    let root = tree.root().unwrap();
    assert_eq!(BstNode::tree_search(&tree, root, &5), Some(h[0]));
}

#[test]
fn successor_by_identity_with_duplicate_keys() {
    // 10 at the root, 5 on its left, and a second 5 as that node's right child
    let (tree, h) = build(&[10, 5, 5]);
    assert_eq!(tree.node(h[1]).right, Some(h[2]));
    assert_eq!(BstNode::tree_successor(&tree, h[1]), Some(h[2]));
    assert_eq!(BstNode::tree_successor(&tree, h[2]), Some(h[0]));
    assert_eq!(BstNode::tree_successor_simpler(&tree, h[2]), Some(h[0]));
    assert_eq!(BstNode::tree_successor(&tree, h[0]), None);
}

#[test]
fn successor_walks_up_past_right_children() {
    let (tree, h) = build(&[20, 10, 15, 17, 30]);
    assert_eq!(BstNode::tree_successor(&tree, h[3]), Some(h[0]));
    assert_eq!(BstNode::tree_successor(&tree, h[4]), None);
}

#[test]
fn delete_leaf() {
    let (mut tree, h) = build(&SAMPLE);
    BstNode::tree_delete(&mut tree, h[3]);
    assert_eq!(tree.inorder_keys(), vec![6, 7, 15, 17, 18, 20]);
    assert_eq!(tree.node(h[1]).left, None);
    check_links(&tree);
}

#[test]
fn delete_with_only_right_child() {
    let (mut tree, h) = build(&[10, 5, 7]);
    BstNode::tree_delete(&mut tree, h[1]);
    assert_eq!(tree.inorder_keys(), vec![7, 10]);
    assert_eq!(tree.node(h[0]).left, Some(h[2]));
    assert_eq!(tree.node(h[2]).parent, Some(h[0]));
}

#[test]
fn delete_with_only_left_child() {
    let (mut tree, h) = build(&[10, 15, 12]);
    BstNode::tree_delete(&mut tree, h[1]);
    assert_eq!(tree.inorder_keys(), vec![10, 12]);
    assert_eq!(tree.node(h[0]).right, Some(h[2]));
    assert_eq!(tree.node(h[2]).parent, Some(h[0]));
}

#[test]
fn delete_root_until_empty() {
    let (mut tree, _) = build(&SAMPLE);
    let mut expected = vec![3, 6, 7, 15, 17, 18, 20];
    while let Some(root) = tree.root() {
        let k = key(&tree, root);
        BstNode::tree_delete(&mut tree, root);
        let at = expected.iter().position(|&e| e == k).unwrap();
        expected.remove(at);
        assert_eq!(tree.inorder_keys(), expected);
        check_links(&tree);
        if let Some(r) = tree.root() {
            assert_eq!(tree.node(r).parent, None);
        }
    }
    assert!(expected.is_empty());
}

#[test]
fn delete_with_deep_successor() {
    // the successor of 10 is 12, the left child of 15, with 13 on its right
    let (mut tree, h) = build(&[10, 5, 15, 12, 20, 13]);
    BstNode::tree_delete(&mut tree, h[0]);
    assert_eq!(tree.inorder_keys(), vec![5, 12, 13, 15, 20]);
    assert_eq!(tree.root(), Some(h[3]));
    assert_eq!(tree.node(h[3]).left, Some(h[1]));
    assert_eq!(tree.node(h[3]).right, Some(h[2]));
    assert_eq!(tree.node(h[2]).left, Some(h[5]));
    assert_eq!(tree.node(h[5]).parent, Some(h[2]));
    assert_eq!(tree.node(h[3]).parent, None);
    check_links(&tree);
}

#[test]
fn insert_then_search_round_trip() {
    let (mut tree, _) = build(&SAMPLE);
    let z = BstNode::new_bst_nodelink(&mut tree, 16);
    BstNode::tree_insert(&mut tree, z);
    let root = tree.root().unwrap();
    let found = BstNode::tree_search(&tree, root, &16).unwrap();
    assert_eq!(key(&tree, found), 16);
    BstNode::tree_delete(&mut tree, z);
    let root = tree.root().unwrap();
    assert_eq!(BstNode::tree_search(&tree, root, &16), None);
    assert_eq!(tree.inorder_keys(), vec![3, 6, 7, 15, 17, 18, 20]);
}

#[test]
fn insert_into_empty_makes_root() {
    let mut tree = BstTree::new();
    let z = BstNode::new_bst_nodelink(&mut tree, 9);
    assert_eq!(tree.root(), None);
    assert_eq!(tree.node(z).parent, None);
    BstNode::tree_insert(&mut tree, z);
    assert_eq!(tree.root(), Some(z));
    assert_eq!(tree.node(z).parent, None);
}

#[test]
fn insert_sets_parent_and_side() {
    let (tree, h) = build(&[8, 3, 12]);
    assert_eq!(tree.node(h[1]).parent, Some(h[0]));
    assert_eq!(tree.node(h[2]).parent, Some(h[0]));
    assert_eq!(tree.node(h[0]).left, Some(h[1]));
    assert_eq!(tree.node(h[0]).right, Some(h[2]));
}

#[test]
fn add_children_by_hand() {
    let mut tree = BstTree::new();
    let root = BstNode::new_bst_nodelink(&mut tree, 10);
    BstNode::tree_insert(&mut tree, root);
    BstNode::add_left_child(&mut tree, root, 4);
    BstNode::add_right_child(&mut tree, root, 14);
    let l = tree.node(root).left.unwrap();
    let r = tree.node(root).right.unwrap();
    assert_eq!(key(&tree, l), 4);
    assert_eq!(key(&tree, r), 14);
    assert_eq!(tree.node(l).parent, Some(root));
    assert_eq!(tree.node(r).parent, Some(root));
    assert_eq!(tree.inorder_keys(), vec![4, 10, 14]);
    assert_eq!(BstNode::tree_successor(&tree, l), Some(root));
}

#[test]
fn transplant_replaces_child_slot() {
    let (mut tree, h) = build(&[10, 5, 15]);
    BstNode::transplant(&mut tree, h[1], None);
    assert_eq!(tree.node(h[0]).left, None);
    assert_eq!(tree.node(h[0]).right, Some(h[2]));
    // the removed node keeps its own links
    assert_eq!(tree.node(h[1]).parent, Some(h[0]));
}

#[test]
fn transplant_at_root() {
    let (mut tree, h) = build(&[10, 5, 15]);
    BstNode::transplant(&mut tree, h[0], Some(h[2]));
    assert_eq!(tree.root(), Some(h[2]));
    assert_eq!(tree.node(h[2]).parent, None);
    assert_eq!(tree.node(h[2]).left, None);
}

#[test]
fn transplant_right_slot_by_identity() {
    // two nodes hold 5; the slot is chosen by handle, not by key
    let (mut tree, h) = build(&[5, 5]);
    let spare = BstNode::new_bst_nodelink(&mut tree, 5);
    BstNode::transplant(&mut tree, h[1], Some(spare));
    assert_eq!(tree.node(h[0]).right, Some(spare));
    assert_eq!(tree.node(h[0]).left, None);
    assert_eq!(tree.node(spare).parent, Some(h[0]));
}

#[test]
fn node_copy_keeps_links() {
    let (tree, h) = build(&SAMPLE);
    let n = tree.node(h[1]);
    let c = n.get_bst_nodelink_copy();
    assert_eq!(c.key, Some(6));
    assert_eq!(c.parent, n.parent);
    assert_eq!(c.left, n.left);
    assert_eq!(c.right, n.right);
}

#[test]
fn inorder_is_sorted_for_many_inserts() {
    let keys = [50, 20, 80, 10, 30, 70, 90, 25, 35, 65, 75, 30, 20, -4, 100];
    let (tree, _) = build(&keys);
    let mut sorted = keys.to_vec();
    sorted.sort();
    assert_eq!(tree.inorder_keys(), sorted);
    check_links(&tree);
}

#[test]
fn extreme_keys() {
    let (tree, h) = build(&[0, i32::MAX, i32::MIN]);
    assert_eq!(tree.inorder_keys(), vec![i32::MIN, 0, i32::MAX]);
    let root = tree.root().unwrap();
    assert_eq!(BstNode::minimum(&tree, root), h[2]);
    assert_eq!(BstNode::maximum(&tree, root), h[1]);
}

#[test]
fn search_returns_shallowest_duplicate() {
    let (tree, h) = build(&[8, 4, 8, 12, 8]);
    let root = tree.root().unwrap();
    assert_eq!(BstNode::tree_search(&tree, root, &8), Some(h[0]));
    assert_eq!(BstNode::tree_search(&tree, h[2], &8), Some(h[2]));
    assert_eq!(tree.inorder_keys(), vec![4, 8, 8, 8, 12]);
}

#[test]
fn delete_keeps_root_unless_root_deleted() {
    let (mut tree, h) = build(&SAMPLE);
    BstNode::tree_delete(&mut tree, h[2]);
    assert_eq!(tree.root(), Some(h[0]));
    assert_eq!(tree.node(h[0]).right, Some(h[6]));
    assert_eq!(tree.node(h[6]).left, Some(h[5]));
    assert_eq!(tree.node(h[6]).parent, Some(h[0]));
    check_links(&tree);
}
