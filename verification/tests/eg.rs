use arena_collections::eg::binarytree::Tree;
use arena_collections::eg::linkedlist::List;

#[test]
fn tree_store_hands_out_slots_in_order() {
    let mut t = Tree::<i32>::new();
    assert_eq!(t.len(), 0);
    assert_eq!(t.add_item(9), 0);
    assert_eq!(t.add_item(8), 1);
    assert_eq!(t.len(), 2);
    assert_eq!(t.node(0).val, 9);
    assert_eq!(t.node(1).val, 8);
    assert!(t.node(0).is_leaf());
}

#[test]
fn tree_store_reuses_a_released_slot() {
    let mut t = Tree::<i32>::new();
    t.add_item(9);
    t.add_item(8);
    t.rem_item(0);
    assert_eq!(t.len(), 1);
    assert_eq!(t.add_item(7), 0);
    assert_eq!(t.len(), 2);
    assert_eq!(t.node(0).val, 7);
    assert!(t.node(0).is_leaf());
    assert_eq!(t.add_item(6), 2);
}

#[test]
fn list_adds_nodes_that_link_to_the_head() {
    let mut l = List::<i32>::new();
    assert_eq!(l.len(), 0);
    assert_eq!(l.add(4), 0);
    assert_eq!(l.add(5), 1);
    assert_eq!(l.len(), 2);
    assert_eq!(l.data()[0].val, 4);
    assert_eq!(l.data()[1].val, 5);
    assert_eq!(l.data()[1].next, None);
    assert_eq!(l.data().head(), None);
}

#[test]
fn tree_store_leaves_the_other_released_slots_alone() {
    let mut t = Tree::<i32>::new();
    assert_eq!(t.add_item(1), 0);
    assert_eq!(t.add_item(2), 1);
    assert_eq!(t.add_item(3), 2);
    t.rem_item(1);
    t.rem_item(2);
    assert_eq!(t.add_item(4), 2);
    assert_eq!(t.node(2).val, 4);
    assert_eq!(t.node(1).val, 2);
    assert_eq!(t.node(0).val, 1);
    assert_eq!(t.len(), 2);
    assert_eq!(t.add_item(5), 1);
    assert_eq!(t.add_item(6), 3);
}

#[test]
fn list_reuses_nothing_while_nothing_is_released() {
    let mut l = List::<i32>::new();
    assert_eq!(l.add(10), 0);
    assert_eq!(l.add(20), 1);
    assert_eq!(l.add(30), 2);
    assert_eq!(l.len(), 3);
    assert_eq!(l.data().slots(), 3);
    assert!(l.data().free_list().is_empty());
}
