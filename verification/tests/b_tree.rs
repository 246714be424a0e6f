use arena_collections::ds::b_tree::BTree;

fn build_test_tree() -> BTree<i32> {
    let mut tree = BTree::<i32>::new();
    let vals = vec![7, 3, 11, 1, 5, 9, 13, 4, 6, 8, 12, 14];
    for x in vals {
        assert!(tree.insert(x));
    }
    tree
}

fn collect(tree: BTree<i32>) -> Vec<i32> {
    let mut vals = Vec::new();
    let mut iter = tree.into_iter();
    while let Some(v) = iter.next() {
        vals.push(v);
    }
    vals
}

#[test]
fn b_tree_empty() {
    let tree = BTree::<i32>::new();
    assert_eq!(tree.root(), None);
    assert_eq!(tree.count(), 0);
    assert!(tree.is_empty());
    let vals = collect(tree);
    assert!(vals.is_empty());
}

#[test]
fn b_tree_insert() {
    let mut tree = BTree::<i32>::new();
    assert!(tree.insert(5));
    assert!(tree.insert(3));
    assert!(tree.insert(8));
    assert!(!tree.insert(3));
    assert_eq!(tree.root().unwrap(), 0);
    assert_eq!(tree.count(), 3);
    let vals = collect(tree);
    assert_eq!(vals, vec![3, 5, 8]);
}

#[test]
fn b_tree_test_tree() {
    let tree = build_test_tree();
    let find = tree.find_item_index(tree.root(), 1, None);
    if let Some(i) = find.0 {
        assert!(tree.node(i).is_leaf());
    } else {
        assert!(false);
    }
    let find = tree.find_item_index(tree.root(), 13, None);
    if let Some(i) = find.0 {
        assert!(tree.node(i).is_full());
    } else {
        assert!(false);
    }
    let vals = collect(tree);
    assert_eq!(vals, vec![1, 3, 4, 5, 6, 7, 8, 9, 11, 12, 13, 14]);
}

#[test]
fn find_item() {
    let tree = build_test_tree();
    assert_eq!(tree.find_item_index(tree.root(), 7, None), (Some(0), None));
    assert_eq!(tree.find_item_index(tree.root(), 9, None), (Some(5), Some(2)));
    assert_eq!(tree.find_item_index(tree.root(), 4, None), (Some(7), Some(4)));
    assert_eq!(tree.find_item_index(tree.root(), 47, None), (None, None));
}

#[test]
fn splice_chk() {
    let mut tree = build_test_tree();
    let find = tree.find_item_index(tree.root(), 6, None);
    if let Some(i) = find.0 {
        tree.splice(i, find.1);
    } else {
        assert!(false);
    }
    let find = tree.find_item_index(tree.root(), 9, None);
    if let Some(i) = find.0 {
        tree.splice(i, find.1);
    } else {
        assert!(false);
    }
    assert_eq!(tree.count(), 10);
    assert_eq!(*tree.free_list(), vec![8, 5]);
    let vals = collect(tree);
    assert_eq!(vals, vec![1, 3, 4, 5, 7, 8, 11, 12, 13, 14]);
}

#[test]
fn remove() {
    let mut tree = build_test_tree();
    assert!(tree.remove(11));
    assert!(!tree.remove(11));
    let vals = collect(tree);
    assert_eq!(vals, vec![1, 3, 4, 5, 6, 7, 8, 9, 12, 13, 14]);
}

#[test]
fn b_tree_default_is_empty() {
    let tree: BTree<i32> = Default::default();
    assert_eq!(tree.root(), None);
    assert_eq!(tree.slots(), 0);
    assert!(tree.free_list().is_empty());
    assert!(tree.is_empty());
}

#[test]
fn b_tree_root_holds_first_value() {
    let tree = build_test_tree();
    assert_eq!(tree.root(), Some(0));
    assert_eq!(tree.node(0).val, 7);
    assert_eq!(tree.count(), 12);
    assert_eq!(tree.slots(), 12);
}

#[test]
fn b_tree_search_order_at_every_node() {
    let tree = build_test_tree();
    for i in 0..tree.slots() {
        let node = tree.node(i);
        if let Some(l) = node.left {
            assert!(tree.node(l).val < node.val);
        }
        if let Some(r) = node.right {
            assert!(tree.node(r).val > node.val);
        }
    }
}

#[test]
fn b_tree_count_is_length_of_walk_and_walk_ascends() {
    let mut tree = BTree::<i32>::new();
    for x in [50, -3, 17, 17, 0, 99, -3, 64] {
        tree.insert(x);
    }
    let n = tree.count();
    let vals = collect(tree);
    assert_eq!(vals.len(), n);
    assert_eq!(vals, vec![-3, 0, 17, 50, 64, 99]);
    for w in vals.windows(2) {
        assert!(w[0] < w[1]);
    }
}

#[test]
fn b_tree_duplicate_is_refused_once_inserted() {
    let mut tree = BTree::<u64>::new();
    assert!(tree.insert(4));
    assert_eq!(tree.count(), 1);
    assert!(!tree.insert(4));
    assert_eq!(tree.count(), 1);
    assert_eq!(tree.slots(), 1);
}

#[test]
fn b_tree_remove_of_absent_value_changes_nothing() {
    let mut tree = build_test_tree();
    assert!(!tree.remove(2));
    assert_eq!(tree.count(), 12);
    assert!(tree.free_list().is_empty());
    assert_eq!(collect(tree), vec![1, 3, 4, 5, 6, 7, 8, 9, 11, 12, 13, 14]);
}

#[test]
fn b_tree_remove_from_empty_tree() {
    let mut tree = BTree::<i32>::new();
    assert!(!tree.remove(1));
    assert!(tree.is_empty());
}

#[test]
fn b_tree_remove_only_value() {
    let mut tree = BTree::<i32>::new();
    assert!(tree.insert(1));
    assert!(tree.remove(1));
    assert_eq!(tree.root(), None);
    assert!(tree.is_empty());
    assert_eq!(*tree.free_list(), vec![0]);
    assert!(tree.insert(2));
    assert_eq!(tree.root(), Some(0));
    assert_eq!(tree.slots(), 1);
    assert_eq!(collect(tree), vec![2]);
}

#[test]
fn b_tree_remove_leaf() {
    let mut tree = build_test_tree();
    assert!(tree.remove(14));
    assert_eq!(*tree.free_list(), vec![11]);
    assert_eq!(tree.node(6).right, None);
    assert_eq!(collect(tree), vec![1, 3, 4, 5, 6, 7, 8, 9, 11, 12, 13]);
}

#[test]
fn b_tree_remove_node_with_one_child() {
    let mut tree = build_test_tree();
    assert!(tree.remove(9));
    assert_eq!(*tree.free_list(), vec![5]);
    assert_eq!(tree.node(2).left, Some(9));
    assert_eq!(collect(tree), vec![1, 3, 4, 5, 6, 7, 8, 11, 12, 13, 14]);
}

#[test]
fn b_tree_two_child_removal_keeps_slot_and_takes_successor() {
    let mut tree = build_test_tree();
    let (slot, parent) = tree.find_item_index(tree.root(), 11, None);
    assert_eq!((slot, parent), (Some(2), Some(0)));
    assert!(tree.node(2).is_full());
    assert!(tree.remove(11));
    // the node stays where it was and holds the value that followed
    assert_eq!(tree.node(2).val, 12);
    assert_eq!(tree.node(0).right, Some(2));
    // the slot of the successor, not that of the target, was released
    assert_eq!(*tree.free_list(), vec![10]);
    assert_eq!(tree.node(6).left, None);
    assert_eq!(tree.count(), 11);
    assert_eq!(collect(tree), vec![1, 3, 4, 5, 6, 7, 8, 9, 12, 13, 14]);
}

#[test]
fn b_tree_remove_root_with_two_children() {
    let mut tree = build_test_tree();
    assert!(tree.remove(7));
    assert_eq!(tree.root(), Some(0));
    assert_eq!(tree.node(0).val, 8);
    assert_eq!(*tree.free_list(), vec![9]);
    assert_eq!(collect(tree), vec![1, 3, 4, 5, 6, 8, 9, 11, 12, 13, 14]);
}

#[test]
fn b_tree_successor_is_right_child() {
    let mut tree = BTree::<i32>::new();
    for x in [2, 1, 3, 4] {
        assert!(tree.insert(x));
    }
    assert!(tree.remove(2));
    assert_eq!(tree.node(0).val, 3);
    assert_eq!(tree.node(0).right, Some(3));
    assert_eq!(*tree.free_list(), vec![2]);
    assert_eq!(collect(tree), vec![1, 3, 4]);
}

#[test]
fn b_tree_released_slot_is_reused_before_the_arena_grows() {
    let mut tree = build_test_tree();
    assert_eq!(tree.slots(), 12);
    assert!(tree.remove(11));
    assert!(!tree.remove(11));
    assert_eq!(tree.slots(), 12);
    assert!(tree.insert(10));
    assert_eq!(tree.slots(), 12);
    assert!(tree.free_list().is_empty());
    assert_eq!(tree.find_item_index(tree.root(), 10, None), (Some(10), Some(5)));
    assert!(tree.node(10).is_leaf());
    assert!(tree.insert(15));
    assert_eq!(tree.slots(), 13);
    assert_eq!(collect(tree), vec![1, 3, 4, 5, 6, 7, 8, 9, 10, 12, 13, 14, 15]);
}

#[test]
fn b_tree_reused_slot_carries_no_old_links() {
    let mut tree = BTree::<i32>::new();
    for x in [5, 3, 8, 7, 9] {
        assert!(tree.insert(x));
    }
    // slot 2 holds 8 with two children; its successor 9 sits in slot 4
    assert!(tree.remove(8));
    assert!(tree.remove(9));
    assert_eq!(*tree.free_list(), vec![4, 2]);
    assert!(tree.insert(1));
    let (slot, parent) = tree.find_item_index(tree.root(), 1, None);
    assert_eq!((slot, parent), (Some(2), Some(1)));
    assert!(tree.node(2).is_leaf());
    assert_eq!(collect(tree), vec![1, 3, 5, 7]);
}

#[test]
fn b_tree_find_below_a_node() {
    let tree = build_test_tree();
    assert_eq!(tree.find_item_index(Some(2), 9, Some(0)), (Some(5), Some(2)));
    assert_eq!(tree.find_item_index(Some(2), 11, Some(0)), (Some(2), Some(0)));
    assert_eq!(tree.find_item_index(Some(2), 3, Some(0)), (None, None));
    assert_eq!(tree.find_item_index(None, 7, Some(0)), (None, None));
}

#[test]
fn b_tree_splice_root() {
    let mut tree = BTree::<i32>::new();
    assert!(tree.insert(1));
    assert!(tree.insert(2));
    tree.splice(0, None);
    assert_eq!(tree.root(), Some(1));
    assert_eq!(tree.count(), 1);
    assert_eq!(*tree.free_list(), vec![0]);
    assert_eq!(collect(tree), vec![2]);
}

#[test]
fn b_tree_walk_stays_finished() {
    let mut tree = BTree::<i32>::new();
    assert!(tree.insert(1));
    let mut iter = tree.into_iter();
    assert_eq!(iter.next(), Some(1));
    assert_eq!(iter.next(), None);
    assert_eq!(iter.next(), None);
}

#[test]
fn b_tree_node_kinds() {
    let tree = build_test_tree();
    assert!(tree.node(0).is_full());
    assert!(!tree.node(0).is_leaf());
    assert!(!tree.node(5).is_full());
    assert!(!tree.node(5).is_leaf());
    assert!(tree.node(3).is_leaf());
}

#[test]
fn b_tree_many_removals_and_insertions() {
    let mut tree = build_test_tree();
    for x in [7, 3, 11, 1, 5, 9] {
        assert!(tree.remove(x));
    }
    assert_eq!(tree.count(), 6);
    for x in [2, 10, 20] {
        assert!(tree.insert(x));
    }
    assert_eq!(tree.slots(), 12);
    assert_eq!(tree.free_list().len(), 3);
    assert_eq!(collect(tree), vec![2, 4, 6, 8, 10, 12, 13, 14, 20]);
}

#[test]
fn b_tree_node_clone_keeps_value_and_links() {
    let tree = build_test_tree();
    let copy = tree.node(2).clone();
    assert_eq!(copy.val, 11);
    assert_eq!(copy.left, Some(5));
    assert_eq!(copy.right, Some(6));
    assert_eq!(format!("{:?}", copy), "Node { val: 11, left: Some(5), right: Some(6) }");
}

fn collect_by_find(tree: &BTree<i32>, candidates: &[i32]) -> Vec<i32> {
    let mut held = Vec::new();
    for &x in candidates {
        if let (Some(i), _) = tree.find_item_index(tree.root(), x, None) {
            assert_eq!(tree.node(i).val, x);
            held.push(x);
        }
    }
    held
}

#[test]
fn b_tree_agrees_with_an_ordered_set_under_mixed_operations() {
    let mut tree = BTree::<i32>::new();
    let mut model = std::collections::BTreeSet::new();
    let mut state: u64 = 12345;
    let universe: Vec<i32> = (0..64).collect();
    for step in 0..4000 {
        state = state.wrapping_mul(6364136223846793005).wrapping_add(1442695040888963407);
        let x = ((state >> 33) % 64) as i32;
        if (state >> 20) % 3 == 0 {
            assert_eq!(tree.remove(x), model.remove(&x));
        } else {
            assert_eq!(tree.insert(x), model.insert(x));
        }
        assert_eq!(tree.count(), model.len());
        assert_eq!(tree.is_empty(), model.is_empty());
        assert_eq!(tree.slots(), tree.count() + tree.free_list().len());
        if step % 250 == 0 {
            let held = collect_by_find(&tree, &universe);
            let expected: Vec<i32> = model.iter().copied().collect();
            assert_eq!(held, expected);
        }
    }
    let expected: Vec<i32> = model.iter().copied().collect();
    assert_eq!(collect(tree), expected);
}

#[test]
fn b_tree_released_slots_hold_what_they_held() {
    let mut tree = build_test_tree();
    assert!(tree.remove(14));
    assert!(tree.remove(11));
    assert_eq!(*tree.free_list(), vec![11, 10]);
    // the released slots still show the nodes that left them
    assert_eq!(tree.node(11).val, 14);
    assert_eq!(tree.node(10).val, 12);
    assert!(tree.insert(2));
    assert_eq!(*tree.free_list(), vec![11]);
    assert_eq!(tree.node(10).val, 2);
    assert!(tree.node(10).is_leaf());
    assert_eq!(tree.node(11).val, 14);
    assert_eq!(collect(tree), vec![1, 2, 3, 4, 5, 6, 7, 8, 9, 12, 13]);
}
