use arena_collections::ds::backing::list::ListData;
use arena_collections::ds::backing::node::NodeData;

struct TestNode<T> {
    val: T,
}

impl<T: Copy> NodeData for TestNode<T> {
    type TVal = T;

    fn get_val(&self) -> Self::TVal {
        self.val
    }

    fn set_val(&mut self, new_val: Self::TVal) {
        self.val = new_val;
    }
}

#[test]
fn add_rem_items() {
    let mut l: ListData<TestNode<i32>> = ListData::new();
    assert_eq!(l.len(), 0);
    assert_eq!(l.slots(), 0);
    assert_eq!(l.free_list().len(), 0);
    assert_eq!(l.add_item(TestNode { val: 9 }), 0);
    assert_eq!(l.len(), 1);
    assert_eq!(l[0].val, 9);
    assert_eq!(l.add_item(TestNode { val: 8 }), 1);
    assert_eq!(l.len(), 2);
    assert_eq!(l[1].val, 8);
    l.rem_item(0);
    assert_eq!(l.len(), 1);
    assert_eq!(l.free_list().len(), 1);
    assert_eq!(l.free_list()[0], 0);
    assert_eq!(l.add_item(TestNode { val: 7 }), 0);
    assert_eq!(l.len(), 2);
    assert_eq!(l[0].val, 7);
    assert_eq!(l.free_list().len(), 0);
}

#[test]
fn node_value_can_be_read_and_replaced() {
    let mut n = TestNode { val: 3 };
    assert_eq!(n.get_val(), 3);
    n.set_val(4);
    assert_eq!(n.get_val(), 4);
}

#[test]
fn index_mut_changes_one_slot() {
    let mut l: ListData<TestNode<i32>> = ListData::new();
    l.add_item(TestNode { val: 1 });
    l.add_item(TestNode { val: 2 });
    l[1].val = 5;
    assert_eq!(l[0].val, 1);
    assert_eq!(l[1].val, 5);
    assert_eq!(l.slots(), 2);
}

#[test]
fn released_slots_are_reused_last_first() {
    let mut l: ListData<TestNode<i32>> = ListData::new();
    for v in 0..4 {
        assert_eq!(l.add_item(TestNode { val: v }), v as usize);
    }
    l.rem_item(1);
    l.rem_item(3);
    assert_eq!(*l.free_list(), vec![1, 3]);
    assert_eq!(l.add_item(TestNode { val: 10 }), 3);
    assert_eq!(l.add_item(TestNode { val: 11 }), 1);
    assert_eq!(l.add_item(TestNode { val: 12 }), 4);
    assert_eq!(l.slots(), 5);
    assert_eq!(l.len(), 5);
    assert!(l.head.is_none());
}
