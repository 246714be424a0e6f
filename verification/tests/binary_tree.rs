use arena_collections::ds::binary_tree::BinaryTree;

fn build_test_tree() -> BinaryTree<i32> {
    let mut tree = BinaryTree::<i32>::new();
    let vals = vec![7, 3, 11, 1, 5, 9, 13, 4, 6, 8, 12, 14];
    for x in vals {
        assert!(tree.insert(x));
    }
    tree
}

fn collect(tree: BinaryTree<i32>) -> Vec<i32> {
    let mut vals = Vec::new();
    let mut iter = tree.into_iter();
    while let Some(v) = iter.next() {
        vals.push(v);
    }
    vals
}

#[test]
fn binary_tree_empty() {
    let tree = BinaryTree::<i32>::new();
    assert_eq!(tree.root(), None);
    assert_eq!(tree.len(), 0);
    assert!(tree.is_empty());
    let vals = collect(tree);
    assert!(vals.is_empty());
}

#[test]
fn binary_tree_insert() {
    let mut tree = BinaryTree::<i32>::new();
    assert!(tree.insert(5));
    assert!(tree.insert(3));
    assert!(tree.insert(8));
    assert!(!tree.insert(3));
    assert_eq!(tree.root().unwrap(), 0);
    assert_eq!(tree.len(), 3);
    let vals = collect(tree);
    assert_eq!(vals, vec![3, 5, 8]);
}

#[test]
fn binary_tree_test_tree() {
    let tree = build_test_tree();
    let vals = collect(tree);
    assert_eq!(vals, vec![1, 3, 4, 5, 6, 7, 8, 9, 11, 12, 13, 14]);
}

#[test]
fn binary_tree_descending_inserts_come_out_ascending() {
    let mut tree = BinaryTree::<i32>::new();
    for x in [5, 4, 3, 2, 1] {
        assert!(tree.insert(x));
    }
    assert!(!tree.is_empty());
    assert_eq!(tree.len(), 5);
    assert_eq!(collect(tree), vec![1, 2, 3, 4, 5]);
}
