use bst::{Node, Tree};

fn in_order(n: &Node<i32>, out: &mut Vec<i32>) {
    if let Some(l) = n.left() {
        in_order(l, out);
    }
    if let Some(v) = n.value() {
        out.push(*v);
    }
    if let Some(r) = n.right() {
        in_order(r, out);
    }
}

fn values_of(tree: &Tree<i32>) -> Vec<i32> {
    let mut out = Vec::new();
    in_order(tree.root(), &mut out);
    out
}

#[test]
fn test_tree_constructor() {
    let tree: Tree<i32> = Tree::new();
    assert_eq!(tree.length, 0);
}

#[test]
fn test_add_node() {
    let mut tree = Tree::new_with(5);
    tree.add(7);

    assert_eq!(tree.length, 2);
    assert_eq!(*tree.root().right().unwrap().value().unwrap(), 7);
}

#[test]
fn test_contains() {
    let mut tree = Tree::new_with('g');
    tree.add('b');

    assert!(tree.contains('g'));
    assert!(tree.contains('b'));
}

#[test]
fn test_remove_node() {
    let mut tree = Tree::new_with(1);
    tree.add(2);
    tree.add(3);
    tree.remove(3);

    assert!(!tree.contains(3));
}

#[test]
fn test_get_max_val() {
    let mut tree = Tree::new_with(1);
    tree.add(2);
    tree.add(3);

    assert_eq!(tree.max(), 3);
}

#[test]
fn test_get_min_val() {
    let mut tree = Tree::new_with(4);
    tree.add(2);
    tree.add(3);

    assert_eq!(tree.min(), 2);
}

#[test]
fn test_is_leaf() {
    let tree = Tree::new_with(1);
    assert!(tree.is_leaf(tree.root()));
}

#[test]
fn empty_tree_has_sentinel_root() {
    let tree: Tree<i32> = Tree::new();
    assert!(tree.root().value().is_none());
    assert!(tree.try_get_left_child().is_none());
    assert!(tree.try_get_right_child().is_none());
    assert!(!tree.contains(0));
    assert!(tree.is_leaf(tree.root()));
}

#[test]
fn first_add_fills_sentinel_root() {
    let mut tree: Tree<i32> = Tree::new();
    tree.add(4);
    assert_eq!(tree.length, 1);
    assert_eq!(*tree.root().value().unwrap(), 4);
    assert!(tree.is_leaf(tree.root()));
}

#[test]
fn scenario_five_then_seven() {
    let mut tree: Tree<i32> = Tree::new();
    tree.add(5);
    tree.add(7);
    assert_eq!(tree.length, 2);
    assert_eq!(*tree.get_right_child().value().unwrap(), 7);
    assert!(tree.contains(5));
    assert!(tree.contains(7));
    assert_eq!(tree.max(), 7);
    assert_eq!(tree.min(), 5);
}

#[test]
fn scenario_one_two_three_then_remove() {
    let mut tree: Tree<i32> = Tree::new();
    tree.add(1);
    tree.add(2);
    tree.add(3);
    assert_eq!(tree.max(), 3);
    assert_eq!(tree.min(), 1);
    assert!(tree.remove(3));
    assert!(!tree.contains(3));
    assert_eq!(tree.length, 2);
    assert_eq!(tree.max(), 2);
}

#[test]
fn duplicate_add_changes_nothing() {
    let mut tree = Tree::new_with(5);
    tree.add(3);
    tree.add(8);
    let before = values_of(&tree);
    tree.add(3);
    tree.add(5);
    assert_eq!(tree.length, 3);
    assert_eq!(values_of(&tree), before);
    for v in -2..12 {
        assert_eq!(tree.contains(v), before.contains(&v));
    }
}

#[test]
fn in_order_is_strictly_increasing() {
    let mut tree: Tree<i32> = Tree::new();
    for v in [50, 20, 70, 10, 30, 60, 80, 25, 35, 65, 20, 70, -5, 100] {
        tree.add(v);
    }
    let vals = values_of(&tree);
    assert_eq!(vals, vec![-5, 10, 20, 25, 30, 35, 50, 60, 65, 70, 80, 100]);
    assert_eq!(tree.length, vals.len());
}

#[test]
fn membership_of_added_and_missing_values() {
    let mut tree: Tree<i32> = Tree::new();
    let added = [8, 3, 10, 1, 6, 14, 4, 7, 13];
    for v in added {
        tree.add(v);
    }
    for v in added {
        assert!(tree.contains(v));
    }
    for v in [0, 2, 5, 9, 11, 12, 15, -1] {
        assert!(!tree.contains(v));
    }
}

#[test]
fn min_max_of_single_value() {
    let tree = Tree::new_with(42);
    assert_eq!(tree.min(), 42);
    assert_eq!(tree.max(), 42);
}

#[test]
fn min_max_with_extreme_values() {
    let mut tree = Tree::new_with(0);
    tree.add(i32::MAX);
    tree.add(i32::MIN);
    tree.add(-7);
    assert_eq!(tree.min(), i32::MIN);
    assert_eq!(tree.max(), i32::MAX);
}

#[test]
fn min_max_of_chars() {
    let mut tree = Tree::new_with('m');
    tree.add('z');
    tree.add('a');
    tree.add('q');
    assert_eq!(tree.min(), 'a');
    assert_eq!(tree.max(), 'z');
}

#[test]
fn root_with_both_sides_is_not_leaf() {
    let mut tree = Tree::new_with(5);
    assert!(tree.is_leaf(tree.root()));
    tree.add(3);
    tree.add(8);
    assert!(!tree.is_leaf(tree.root()));
    assert!(tree.is_leaf(tree.get_left_child()));
    assert!(tree.is_leaf(tree.get_right_child()));
}

#[test]
fn children_of_root() {
    let mut tree = Tree::new_with(5);
    tree.add(3);
    assert_eq!(*tree.get_left_child().value().unwrap(), 3);
    assert_eq!(*tree.try_get_left_child().unwrap().value().unwrap(), 3);
    assert!(tree.try_get_right_child().is_none());
}

#[test]
fn remove_absent_value_changes_nothing() {
    let mut tree = Tree::new_with(5);
    tree.add(3);
    tree.add(8);
    let before = values_of(&tree);
    assert!(!tree.remove(4));
    assert_eq!(tree.length, 3);
    assert_eq!(values_of(&tree), before);
    let mut empty: Tree<i32> = Tree::new();
    assert!(!empty.remove(1));
    assert_eq!(empty.length, 0);
}

#[test]
fn remove_leaf() {
    let mut tree = Tree::new_with(5);
    tree.add(3);
    tree.add(8);
    assert!(tree.remove(3));
    assert_eq!(values_of(&tree), vec![5, 8]);
    assert!(tree.try_get_left_child().is_none());
    assert_eq!(tree.length, 2);
}

#[test]
fn remove_node_with_one_child() {
    let mut tree = Tree::new_with(5);
    tree.add(3);
    tree.add(1);
    assert!(tree.remove(3));
    assert_eq!(*tree.get_left_child().value().unwrap(), 1);
    assert_eq!(values_of(&tree), vec![1, 5]);
}

#[test]
fn remove_node_with_two_children_takes_successor() {
    let mut tree = Tree::new_with(5);
    for v in [3, 8, 7, 9, 6] {
        tree.add(v);
    }
    assert!(tree.remove(5));
    assert_eq!(*tree.root().value().unwrap(), 6);
    assert_eq!(values_of(&tree), vec![3, 6, 7, 8, 9]);
    assert!(!tree.contains(5));
    assert_eq!(tree.length, 5);
}

#[test]
fn remove_last_value_empties_tree() {
    let mut tree = Tree::new_with(5);
    assert!(tree.remove(5));
    assert_eq!(tree.length, 0);
    assert!(tree.root().value().is_none());
    assert!(!tree.contains(5));
    tree.add(9);
    assert_eq!(tree.max(), 9);
    assert_eq!(tree.length, 1);
}
