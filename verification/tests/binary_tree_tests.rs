use algokit::binary_tree::BinaryTree;

// This tree borrowed from:
// Skiena's Algorithm Design Manual pg 81, section 3.4.1
fn skiena_tree() -> Vec<i64> {
    vec![2, 1, 7, 4, 8, 3, 6, 5]
}

#[test]
fn check_basic_builder() {
    let items: Vec<i64> = (-10..=10).collect();
    let tree: BinaryTree = items.clone().into();

    let tree_items: Vec<i64> = tree.clone().iter();
    assert_eq!(items, tree_items);

    // Check misc things
    assert_eq!(items.iter().copied().min(), tree.min());
    assert_eq!(items.iter().copied().max(), tree.max());
}

#[test]
fn check_insert() {
    let mut tree = BinaryTree::new();

    // First insert succeeds
    assert_eq!(tree.insert(1), true);

    // Second one fails
    assert_eq!(tree.insert(1), false);

    // Unrelated one succeeds
    assert_eq!(tree.insert(2), true);
}

#[test]
fn check_contains() {
    let items: Vec<i64> = (-10..=10).collect();
    let tree: BinaryTree = items.clone().into();

    for (i, item) in items.iter().enumerate() {
        assert!(
            tree.contains(*item),
            "items[{}] == {}, but not found in tree",
            i,
            item
        );
    }
}

#[test]
fn check_len_and_height() {
    let mut tree = BinaryTree::default();
    assert_eq!(0, tree.len());
    assert!(tree.is_empty());

    let expected_heights = [1_usize, 2, 2, 3, 3, 4, 4, 5];

    for (item, expected_height) in skiena_tree()
        .iter()
        .copied()
        .zip(expected_heights.iter().copied())
    {
        tree.insert(item);

        assert_eq!(
            expected_height,
            tree.height(),
            "Checking height after inserting {}",
            item
        );
    }
}

/// Remove a left node with 0 children
#[test]
fn check_delete_skiena_ex_3() {
    let mut tree: BinaryTree = skiena_tree().into();
    assert_eq!(tree.len(), skiena_tree().len());

    let removed = tree.remove_item(3);

    let expected_tree: BinaryTree = vec![2, 1, 7, 4, 8, 6, 5].into();
    assert_eq!(expected_tree, tree);
    assert_eq!(Some(3), removed);
    assert_eq!(skiena_tree().len() - 1, tree.len());
}

/// Remove a right node with 0 children
#[test]
fn check_delete_skiena_ex_8() {
    let mut tree: BinaryTree = skiena_tree().into();
    assert_eq!(tree.len(), skiena_tree().len());

    let removed = tree.remove_item(8);

    let expected_tree: BinaryTree = vec![2, 1, 7, 4, 3, 6, 5].into();
    assert_eq!(expected_tree, tree);
    assert_eq!(Some(8), removed);
    assert_eq!(skiena_tree().len() - 1, tree.len());
}

// Remove a node with 1 child
#[test]
fn check_delete_skiena_ex_6() {
    let mut tree: BinaryTree = skiena_tree().into();
    assert_eq!(tree.len(), skiena_tree().len());

    let removed = tree.remove_item(6);

    let expected_tree: BinaryTree = vec![2, 1, 7, 4, 8, 3, 5].into();
    assert_eq!(expected_tree, tree);
    assert_eq!(Some(6), removed);
    assert_eq!(skiena_tree().len() - 1, tree.len());
}

// Remove a node with 2 children
#[test]
fn check_delete_skiena_ex_4() {
    let mut tree: BinaryTree = skiena_tree().into();
    assert_eq!(tree.len(), skiena_tree().len());

    let removed = tree.remove_item(4);

    let expected_tree: BinaryTree = vec![2, 1, 7, 5, 8, 3, 6].into();
    assert_eq!(expected_tree, tree);
    assert_eq!(Some(4), removed);
    assert_eq!(skiena_tree().len() - 1, tree.len());
}

#[test]
fn check_delete_root_simple() {
    let mut tree: BinaryTree = vec![1].into();

    assert_eq!(tree.remove_item(1), Some(1));
    assert_eq!(tree, BinaryTree::new());
}

#[test]
fn check_delete_skiena_ex_root() {
    let mut tree: BinaryTree = skiena_tree().into();
    assert_eq!(tree.len(), skiena_tree().len());

    let removed = tree.remove_item(2);

    let expected_tree: BinaryTree = vec![3, 1, 7, 4, 8, 6, 5].into();
    assert_eq!(expected_tree, tree);
    assert_eq!(Some(2), removed);
    assert_eq!(skiena_tree().len() - 1, tree.len());
}

#[test]
fn check_delete_non_existing() {
    let mut tree: BinaryTree = skiena_tree().into();
    assert_eq!(tree.len(), skiena_tree().len());

    // Remove an item once
    let removed = tree.remove_item(4);
    assert_eq!(Some(4), removed);

    // Then attempt to remove it once more.
    let removed = tree.remove_item(4);

    let expected_tree: BinaryTree = vec![2, 1, 7, 5, 8, 3, 6].into();
    assert_eq!(expected_tree, tree);
    assert_eq!(removed, None);
    assert_eq!(skiena_tree().len() - 1, tree.len());
}

#[test]
fn check_insert_duplicate_len_once() {
    let mut tree = BinaryTree::new();
    assert!(tree.insert(42));
    assert_eq!(tree.len(), 1);
    assert!(!tree.insert(42));
    assert_eq!(tree.len(), 1);
}

#[test]
fn check_inorder_ascending_after_mutation() {
    let mut tree: BinaryTree = vec![5, -3, 9, 0, 7, -8, 12, 5, 9].into();
    tree.remove_item(0);
    tree.insert(4);
    tree.remove_item(12);
    let items = tree.iter();
    for w in items.windows(2) {
        assert!(w[0] < w[1]);
    }
}

#[test]
fn check_round_trip_sorted() {
    let items: Vec<i64> = vec![5, 3, 9, 1, -2, 7];
    let tree: BinaryTree = items.clone().into();
    let mut sorted_items = items.clone();
    sorted_items.sort();
    assert_eq!(tree.iter(), sorted_items);
    assert_eq!(tree.len(), items.len());
}

#[test]
fn check_height_ascending_chain() {
    let mut tree = BinaryTree::new();
    for i in 1..=6_i64 {
        tree.insert(i);
    }
    assert_eq!(tree.height(), 6);
}

#[test]
fn check_height_balanced_insertion() {
    // repeated bisection of 1..=7 keeps the tree balanced
    let tree: BinaryTree = vec![4, 2, 6, 1, 3, 5, 7].into();
    assert_eq!(tree.height(), 3);
    assert_eq!(tree.len(), 7);
}

#[test]
fn check_equality_ignores_shape() {
    let a: BinaryTree = vec![1, 2, 3].into();
    let b: BinaryTree = vec![3, 1, 2].into();
    assert_eq!(a, b);

    let c: BinaryTree = vec![1, 2, 4].into();
    assert!(a != c);
}

#[test]
fn check_for_each_appends_in_order() {
    let tree: BinaryTree = vec![2, 1, 3].into();
    let mut out: Vec<i64> = vec![99];
    tree.for_each(&mut out);
    assert_eq!(out, vec![99, 1, 2, 3]);
}

#[test]
fn check_iter_empty() {
    let tree = BinaryTree::new();
    assert_eq!(tree.iter(), Vec::<i64>::new());
}

#[test]
fn check_min_max_empty() {
    let tree = BinaryTree::new();
    assert_eq!(tree.min(), None);
    assert_eq!(tree.max(), None);
    assert_eq!(tree.height(), 0);
    assert!(tree.is_empty());
}
