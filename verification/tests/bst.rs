use calm::render::PrintableTree;
use calm::tree::{BinarySearchTree, MutableTree, SearchTree};

fn build(keys: &[i64]) -> BinarySearchTree {
    let mut t = BinarySearchTree::init();
    for &k in keys {
        t.insert(k, 0);
    }
    t
}

fn keys_of(t: &BinarySearchTree) -> Vec<i64> {
    t.traverse().into_iter().map(|p| p.0).collect()
}

#[test]
fn empty_tree_has_no_nodes() {
    let t = BinarySearchTree::init();
    assert!(!t.contains(5));
    assert!(t.find_node(5).is_none());
    assert!(t.find_value(5).is_none());
    assert_eq!(t.traverse(), Vec::<(i64, i64)>::new());
}

#[test]
fn round_trip_traversal_is_sorted() {
    let t = build(&[5, 3, 10, 1, 6, 9, 8, 2, 14, 20, 15, 5]);
    assert_eq!(keys_of(&t), vec![1, 2, 3, 5, 5, 6, 8, 9, 10, 14, 15, 20]);
}

#[test]
fn traversal_keys_never_decrease() {
    let t = build(&[8, 4, 12, 2, 6, 10, 14, 1, 3, 5, 7, 9, 11, 13, 15, 8, 4]);
    let ks = keys_of(&t);
    for w in ks.windows(2) {
        assert!(w[0] <= w[1]);
    }
}

#[test]
fn parent_of_twenty_is_fourteen() {
    let t = build(&[5, 3, 10, 1, 6, 9, 8, 2, 14, 20, 15, 5]);
    let n = t.find_node(20).expect("20 was inserted");
    assert_eq!(n.key(), 20);
    let p = n.parent().expect("20 is not the root");
    assert_eq!(p.key(), 14);
}

#[test]
fn root_has_no_parent() {
    let t = build(&[5, 3, 10]);
    let root = t.root_node().expect("tree is not empty");
    assert_eq!(root.key(), 5);
    assert!(root.parent().is_none());
}

#[test]
fn find_value_returns_inserted_value() {
    let mut t = build(&[5, 3, 10]);
    t.insert(7, 42);
    assert_eq!(t.find_value(7), Some(&42));
    assert!(t.contains(7));
}

#[test]
fn duplicate_key_keeps_first_value_in_lookup() {
    let mut t = BinarySearchTree::init();
    t.insert(5, 1);
    t.insert(5, 2);
    // Equal keys stop the descent, so the lookup reaches the older node.
    assert_eq!(t.find_value(5), Some(&1));
}

#[test]
fn delete_leaf() {
    let mut t = build(&[5, 3, 10]);
    t.delete(3);
    assert_eq!(keys_of(&t), vec![5, 10]);
    assert!(!t.contains(3));
}

#[test]
fn delete_one_child_node() {
    let mut t = build(&[5, 3, 2]);
    t.delete(3);
    assert_eq!(keys_of(&t), vec![2, 5]);
    let n = t.find_node(2).unwrap();
    assert_eq!(n.parent().unwrap().key(), 5);
}

#[test]
fn delete_two_child_node_promotes_successor() {
    let mut t = build(&[5, 3, 10, 1, 6, 9, 8, 2, 14, 20, 15]);
    t.delete(10);
    assert_eq!(keys_of(&t), vec![1, 2, 3, 5, 6, 8, 9, 14, 15, 20]);
    // The successor 14 took over the deleted node's place, and 14's former
    // child 15 was relinked below 20.
    let n = t.find_node(14).unwrap();
    assert_eq!(n.parent().unwrap().key(), 5);
    let fifteen = t.find_node(15).unwrap();
    assert_eq!(fifteen.parent().unwrap().key(), 20);
}

#[test]
fn delete_root() {
    let mut t = build(&[5, 3, 10]);
    t.delete(5);
    assert_eq!(keys_of(&t), vec![3, 10]);
    let root = t.root_node().unwrap();
    assert!(root.parent().is_none());
}

#[test]
fn delete_missing_key_is_a_no_op() {
    let mut t = build(&[5, 3, 10]);
    t.delete(99);
    assert_eq!(keys_of(&t), vec![3, 5, 10]);
}

#[test]
fn delete_then_find_with_duplicates() {
    let mut t = BinarySearchTree::init();
    t.insert(5, 0);
    t.insert(5, 1);
    let first = t.find_node(5).unwrap().id();
    t.delete(5);
    // A duplicate remained, so the key is still found, on the other node.
    let n = t.find_node(5).expect("one 5 remains");
    assert_eq!(n.key(), 5);
    assert_ne!(n.id(), first);
    t.delete(5);
    assert!(t.find_node(5).is_none());
}

#[test]
fn ascending_inserts_skew_the_tree() {
    let t = build(&[1, 2, 3, 4, 5, 6]);
    let root = t.root_node().unwrap();
    assert_eq!(root.max_depth(), 5);
}

#[test]
fn max_depth_of_single_node_is_zero() {
    let t = build(&[7]);
    assert_eq!(t.root_node().unwrap().max_depth(), 0);
}

#[test]
fn max_depth_of_balanced_three_nodes_is_one() {
    let t = build(&[2, 1, 3]);
    assert_eq!(t.root_node().unwrap().max_depth(), 1);
}

#[test]
fn empty_tree_renders_the_fixed_indicator() {
    let t = BinarySearchTree::init();
    let lines = t.render_lines();
    assert_eq!(lines, vec!["Empty tree".to_string()]);
    t.print();
}

#[test]
fn node_str_and_widths() {
    let t = build(&[5]);
    let root = t.root_node().unwrap();
    assert_eq!(root.node_str(), "(5,0)");
    assert_eq!(root.node_width(), 5);
    assert_eq!(root.left_width(), 0);
    assert_eq!(root.right_width(), 0);
}

#[test]
fn node_str_of_negative_key() {
    let mut t = BinarySearchTree::init();
    t.insert(-3, 1);
    let root = t.root_node().unwrap();
    assert_eq!(root.node_str(), "(-3,1)");
    assert_eq!(root.node_width(), 6);
}

#[test]
fn widths_sum_over_subtrees() {
    let t = build(&[2, 1, 3]);
    let root = t.root_node().unwrap();
    assert_eq!(root.node_width(), 5);
    assert_eq!(root.left_width(), 5);
    assert_eq!(root.right_width(), 5);
}

#[test]
fn render_lays_out_three_nodes() {
    let t = build(&[2, 1, 3]);
    let lines = t.render_lines();
    assert_eq!(
        lines,
        vec!["   +-(2,0)-+   ".to_string(), "(1,0)     (3,0)".to_string()]
    );
    t.print();
    t.root_node().unwrap().print_node_only();
}

#[test]
fn node_views_reach_children() {
    let t = build(&[5, 3, 10]);
    let root = t.root_node().unwrap();
    let l = root.left().expect("3 sits left of 5");
    let r = root.right().expect("10 sits right of 5");
    assert_eq!(l.key(), 3);
    assert_eq!(r.key(), 10);
    assert_eq!(l.value(), 0);
    assert!(l.left().is_none());
    assert!(l.right().is_none());
}
