use ordered_tree::bst::{BstNode, BstTree};

/// Builds the tree
///         15
///        /  \
///       6    18
///      / \   / \
///     3   7 17  20
/// and returns the arena together with the root link.
fn sample_tree() -> (BstTree, usize) {
    let mut tree = BstTree::new();
    let root = BstNode::new_bst_nodelink(&mut tree, 15);
    BstNode::add_left_child(&mut tree, root, 6);
    BstNode::add_right_child(&mut tree, root, 18);
    let n6 = BstNode::tree_search(&tree, root, &6).unwrap();
    BstNode::add_right_child(&mut tree, n6, 7);
    BstNode::add_left_child(&mut tree, n6, 3);
    let n18 = BstNode::tree_search(&tree, root, &18).unwrap();
    BstNode::add_left_child(&mut tree, n18, 17);
    BstNode::add_right_child(&mut tree, n18, 20);
    (tree, root)
}

fn key_at(tree: &BstTree, i: usize) -> Option<i32> {
    tree.nodes[i].key
}

#[test]
fn search_finds_inserted_key() {
    let (tree, root) = sample_tree();
    let found = BstNode::tree_search(&tree, root, &7).expect("7 was inserted");
    assert_eq!(key_at(&tree, found), Some(7));
}

#[test]
fn search_finds_every_inserted_key() {
    let (tree, root) = sample_tree();
    for k in [15, 6, 18, 7, 3, 17, 20] {
        let found = BstNode::tree_search(&tree, root, &k).expect("inserted key");
        assert_eq!(key_at(&tree, found), Some(k));
    }
}

#[test]
fn search_misses_absent_keys() {
    let (tree, root) = sample_tree();
    for k in [0, 1, 2, 4, 5, 8, 14, 16, 19, 21, -3, i32::MIN, i32::MAX] {
        assert!(BstNode::tree_search(&tree, root, &k).is_none());
    }
}

#[test]
fn search_stops_at_sentinel() {
    let mut tree = BstTree::new();
    let root = BstNode::new_bst_nodelink(&mut tree, 10);
    // Hand-build a keyless sentinel as the left child of the root.
    tree.nodes.push(BstNode { key: None, parent: Some(root), left: None, right: None });
    tree.nodes[root].left = Some(1);
    assert!(BstNode::tree_search(&tree, root, &5).is_none());
    // A search that never reaches the sentinel still succeeds.
    assert_eq!(BstNode::tree_search(&tree, root, &10), Some(root));
}

#[test]
fn search_from_sentinel_is_empty() {
    let mut tree = BstTree::new();
    tree.nodes.push(BstNode { key: None, parent: None, left: None, right: None });
    assert!(BstNode::tree_search(&tree, 0, &1).is_none());
}

#[test]
fn minimum_of_sample_tree() {
    let (tree, root) = sample_tree();
    let m = BstNode::minimum(&tree, root);
    assert_eq!(key_at(&tree, m), Some(3));
}

#[test]
fn maximum_of_sample_tree() {
    let (tree, root) = sample_tree();
    let m = BstNode::maximum(&tree, root);
    assert_eq!(key_at(&tree, m), Some(20));
}

#[test]
fn minimum_maximum_of_subtrees() {
    let (tree, root) = sample_tree();
    let n6 = BstNode::tree_search(&tree, root, &6).unwrap();
    let n18 = BstNode::tree_search(&tree, root, &18).unwrap();
    assert_eq!(key_at(&tree, BstNode::minimum(&tree, n6)), Some(3));
    assert_eq!(key_at(&tree, BstNode::maximum(&tree, n6)), Some(7));
    assert_eq!(key_at(&tree, BstNode::minimum(&tree, n18)), Some(17));
    assert_eq!(key_at(&tree, BstNode::maximum(&tree, n18)), Some(20));
}

#[test]
fn minimum_maximum_of_single_node() {
    let mut tree = BstTree::new();
    let root = BstNode::new_bst_nodelink(&mut tree, 42);
    assert_eq!(BstNode::minimum(&tree, root), root);
    assert_eq!(BstNode::maximum(&tree, root), root);
}

#[test]
fn get_root_from_leaf() {
    let (tree, root) = sample_tree();
    let n3 = BstNode::tree_search(&tree, root, &3).unwrap();
    let r = BstNode::get_root(&tree, n3);
    assert_eq!(key_at(&tree, r), Some(15));
}

#[test]
fn get_root_agrees_from_every_node() {
    let (tree, root) = sample_tree();
    for k in [15, 6, 18, 7, 3, 17, 20] {
        let n = BstNode::tree_search(&tree, root, &k).unwrap();
        let r = BstNode::get_root(&tree, n);
        assert_eq!(r, root);
        assert!(tree.nodes[r].parent.is_none());
    }
}

#[test]
fn successor_of_root() {
    let (tree, root) = sample_tree();
    let s = BstNode::tree_successor(&tree, root);
    assert_eq!(key_at(&tree, s), Some(17));
}

#[test]
fn successor_climbs_to_grandparent() {
    let (tree, root) = sample_tree();
    let n7 = BstNode::tree_search(&tree, root, &7).unwrap();
    let s = BstNode::tree_successor(&tree, n7);
    assert_eq!(key_at(&tree, s), Some(15));
}

#[test]
fn successor_of_maximum_is_itself() {
    let (tree, root) = sample_tree();
    let n20 = BstNode::tree_search(&tree, root, &20).unwrap();
    let s = BstNode::tree_successor(&tree, n20);
    assert_eq!(s, n20);
    assert_eq!(key_at(&tree, s), Some(20));
}

#[test]
fn successor_visits_keys_in_order() {
    let (tree, root) = sample_tree();
    let order = [3, 6, 7, 15, 17, 18, 20];
    for w in order.windows(2) {
        let n = BstNode::tree_search(&tree, root, &w[0]).unwrap();
        let s = BstNode::tree_successor(&tree, n);
        assert_eq!(key_at(&tree, s), Some(w[1]));
    }
}

#[test]
fn successor_of_single_node_is_itself() {
    let mut tree = BstTree::new();
    let root = BstNode::new_bst_nodelink(&mut tree, 5);
    assert_eq!(BstNode::tree_successor(&tree, root), root);
}

#[test]
fn new_nodelink_is_detached_root() {
    let mut tree = BstTree::new();
    let n = BstNode::new_bst_nodelink(&mut tree, 9);
    assert_eq!(tree.nodes.len(), 1);
    assert_eq!(tree.nodes[n].key, Some(9));
    assert!(tree.nodes[n].parent.is_none());
    assert!(tree.nodes[n].left.is_none());
    assert!(tree.nodes[n].right.is_none());
}

#[test]
fn nodelink_copy_duplicates_fields() {
    let (tree, root) = sample_tree();
    let copy = tree.nodes[root].get_bst_nodelink_copy();
    assert_eq!(copy.key, tree.nodes[root].key);
    assert_eq!(copy.parent, tree.nodes[root].parent);
    assert_eq!(copy.left, tree.nodes[root].left);
    assert_eq!(copy.right, tree.nodes[root].right);
}

#[test]
fn add_child_records_parent_link() {
    let mut tree = BstTree::new();
    let root = BstNode::new_bst_nodelink(&mut tree, 8);
    BstNode::add_left_child(&mut tree, root, 4);
    BstNode::add_right_child(&mut tree, root, 12);
    let l = tree.nodes[root].left.unwrap();
    let r = tree.nodes[root].right.unwrap();
    assert_eq!(tree.nodes[l].key, Some(4));
    assert_eq!(tree.nodes[l].parent, Some(root));
    assert_eq!(tree.nodes[r].key, Some(12));
    assert_eq!(tree.nodes[r].parent, Some(root));
}

#[test]
fn add_child_replaces_existing_slot() {
    let mut tree = BstTree::new();
    let root = BstNode::new_bst_nodelink(&mut tree, 8);
    BstNode::add_left_child(&mut tree, root, 4);
    let old = tree.nodes[root].left.unwrap();
    BstNode::add_left_child(&mut tree, root, 2);
    let new = tree.nodes[root].left.unwrap();
    assert_ne!(old, new);
    assert_eq!(tree.nodes[new].key, Some(2));
    // The replaced node is detached but still in the arena.
    assert_eq!(tree.nodes[old].key, Some(4));
    let found = BstNode::tree_search(&tree, root, &2).unwrap();
    assert_eq!(tree.nodes[found].key, Some(2));
    assert!(BstNode::tree_search(&tree, root, &4).is_none());
}

#[test]
fn two_trees_in_one_arena_stay_separate() {
    let mut tree = BstTree::new();
    let a = BstNode::new_bst_nodelink(&mut tree, 1);
    let b = BstNode::new_bst_nodelink(&mut tree, 2);
    BstNode::add_right_child(&mut tree, a, 3);
    assert_eq!(BstNode::get_root(&tree, a), a);
    assert_eq!(BstNode::get_root(&tree, b), b);
    assert!(BstNode::tree_search(&tree, b, &3).is_none());
    let n3 = BstNode::tree_search(&tree, a, &3).unwrap();
    assert_eq!(BstNode::get_root(&tree, n3), a);
}
