use arena_collections::ds::sl_list::SlList;

fn collect(list: SlList<i32>) -> Vec<i32> {
    let mut vals = Vec::new();
    let mut iter = list.into_iter();
    while let Some(v) = iter.next() {
        vals.push(v);
    }
    vals
}

#[test]
fn sl_list_empty() {
    let list = SlList::<i32>::new();
    assert_eq!(list.len(), 0);
    assert_eq!(list.head(), None);
    assert_eq!(list.tail(), None);
    let mut iter = list.into_iter();
    while let Some(_) = iter.next() {
        assert!(false);
    }
}

#[test]
fn sl_list_push() {
    let mut list = SlList::<i32>::new();
    list.push(1);
    assert_eq!(list.slots(), 1);
    assert_eq!(list.node(0).val, 1);
    assert_eq!(list.node(0).next, None);
    assert_eq!(list.head(), Some(0));
    assert_eq!(list.tail(), Some(0));
    assert_eq!(list.len(), 1);

    list.push(2);
    assert_eq!(list.slots(), 2);
    assert_eq!(list.node(0).val, 1);
    assert_eq!(list.node(0).next, None);
    assert_eq!(list.node(1).val, 2);
    assert_eq!(list.node(1).next, Some(0));
    assert_eq!(list.head(), Some(1));
    assert_eq!(list.tail(), Some(0));
    assert_eq!(list.len(), 2);
    let mut i = 2;
    let mut iter = list.into_iter();
    while let Some(x) = iter.next() {
        assert_eq!(x, i);
        i -= 1;
    }
    assert_eq!(i, 0);
}

#[test]
fn sl_list_pop() {
    let mut list = SlList::<i32>::new();
    list.push(1);
    list.push(2);
    let val = list.pop();
    assert_eq!(val, Some(2));
    assert_eq!(list.len(), 1);
    assert_eq!(list.head(), Some(0));
    assert_eq!(list.tail(), Some(0));
    assert_eq!(*list.free_list(), vec![1]);

    let val = list.pop();
    assert_eq!(val, Some(1));
    assert_eq!(list.len(), 0);
    assert_eq!(list.head(), None);
    assert_eq!(list.tail(), None);
    assert_eq!(*list.free_list(), vec![1, 0]);

    let val = list.pop();
    assert_eq!(val, None);
}

#[test]
fn sl_list_push_n_pop() {
    let mut list = SlList::<i32>::new();
    list.push(1);
    list.push(2);
    let val = list.pop();
    assert_eq!(val, Some(2));
    list.push(3);

    assert_eq!(list.node(0).val, 1);
    assert_eq!(list.node(0).next, None);
    assert_eq!(list.node(1).val, 3);
    assert_eq!(list.node(1).next, Some(0));
    assert_eq!(list.head(), Some(1));
    assert_eq!(list.tail(), Some(0));
    assert_eq!(list.len(), 2);

    let expected = vec![3, 1];
    let mut i = 0;
    let mut iter = list.into_iter();
    while let Some(x) = iter.next() {
        assert_eq!(x, expected[i]);
        i += 1;
    }
    assert_eq!(i, 2);
}

#[test]
fn sl_list_add_tail() {
    let mut list = SlList::<i32>::new();
    list.add_tail(1);
    assert_eq!(list.len(), 1);
    assert_eq!(list.head(), Some(0));
    assert_eq!(list.tail(), Some(0));
    list.push(2);
    assert_eq!(list.len(), 2);
    assert_eq!(list.head(), Some(1));
    assert_eq!(list.tail(), Some(0));
    list.add_tail(3);
    assert_eq!(list.len(), 3);
    assert_eq!(list.head(), Some(1));
    assert_eq!(list.tail(), Some(2));
}

#[test]
fn sl_list_rem_tail() {
    let mut list = SlList::<i32>::new();
    list.add_tail(1);
    list.add_tail(2);
    list.add_tail(3);
    let mut i = 1;
    let mut iter = list.clone().into_iter();
    while let Some(a) = iter.next() {
        assert_eq!(a, i);
        i += 1;
    }
    assert_eq!(i, 4);
    let x = list.remove_tail().unwrap();
    assert_eq!(x, 3);
    let x = list.remove_tail().unwrap();
    assert_eq!(x, 2);
    let x = list.remove_tail().unwrap();
    assert_eq!(x, 1);
    assert!(list.is_empty());
}

#[test]
fn sl_list_all_ops() {
    let mut list = SlList::<i32>::new();
    assert!(list.is_empty());
    list.push(2);
    list.push(1);
    list.push(40);
    list.add_tail(3);
    list.add_tail(4);
    list.add_tail(45);
    let x = list.pop();
    assert_eq!(x.unwrap(), 40);
    let x = list.remove_tail();
    assert_eq!(x.unwrap(), 45);
    assert_eq!(list.len(), 4);
    let mut i = 1;
    let mut iter = list.into_iter();
    while let Some(x) = iter.next() {
        assert_eq!(x, i);
        i += 1;
    }
    assert_eq!(i, 5);
}

#[test]
fn sl_list_clone_compacts_the_arena() {
    let mut list = SlList::<i32>::new();
    list.push(3);
    list.push(2);
    list.push(1);
    list.add_tail(4);
    assert_eq!(list.pop(), Some(1));
    let copy = list.clone();
    assert_eq!(copy.len(), 3);
    assert_eq!(copy.slots(), 3);
    assert!(copy.free_list().is_empty());
    assert_eq!(copy.head(), Some(0));
    assert_eq!(copy.tail(), Some(2));
    assert_eq!(copy.node(0).next, Some(1));
    assert_eq!(copy.node(2).next, None);
    assert_eq!(collect(copy), vec![2, 3, 4]);
    assert_eq!(list.slots(), 4);
    assert_eq!(collect(list), vec![2, 3, 4]);
}

#[test]
fn sl_list_clone_of_empty_list() {
    let list = SlList::<i32>::new();
    let copy = list.clone();
    assert!(copy.is_empty());
    assert_eq!(copy.head(), None);
    assert_eq!(copy.slots(), 0);
}

#[test]
fn sl_list_remove_tail_of_empty_list() {
    let mut list = SlList::<i32>::new();
    assert_eq!(list.remove_tail(), None);
    assert!(list.is_empty());
}

#[test]
fn sl_list_node_is_copied_whole() {
    let mut list = SlList::<i32>::new();
    list.push(1);
    list.push(2);
    let node = *list.node(1);
    let copy = node.clone();
    assert_eq!(copy.val, 2);
    assert_eq!(copy.next, Some(0));
    assert_eq!(format!("{:?}", copy), "Node { val: 2, next: Some(0) }");
}

#[test]
fn sl_list_agrees_with_a_deque_under_mixed_operations() {
    let mut list = SlList::<i32>::new();
    let mut model = std::collections::VecDeque::new();
    let mut state: u64 = 99;
    for step in 0..3000 {
        state = state.wrapping_mul(6364136223846793005).wrapping_add(1442695040888963407);
        match (state >> 33) % 4 {
            0 => {
                list.push(step);
                model.push_front(step);
            }
            1 => {
                list.add_tail(step);
                model.push_back(step);
            }
            2 => assert_eq!(list.pop(), model.pop_front()),
            _ => assert_eq!(list.remove_tail(), model.pop_back()),
        }
        assert_eq!(list.len(), model.len());
        assert_eq!(list.slots(), list.len() + list.free_list().len());
    }
    let expected: Vec<i32> = model.into_iter().collect();
    assert_eq!(collect(list), expected);
}

#[test]
fn sl_list_released_slots_come_back_last_first() {
    let mut list = SlList::<i32>::new();
    list.add_tail(1);
    list.add_tail(2);
    list.add_tail(3);
    assert_eq!(list.remove_tail(), Some(3));
    assert_eq!(list.remove_tail(), Some(2));
    assert_eq!(*list.free_list(), vec![2, 1]);
    list.add_tail(4);
    assert_eq!(list.tail(), Some(1));
    assert_eq!(*list.free_list(), vec![2]);
    // the slot that stays released holds what it held
    assert_eq!(list.node(2).val, 3);
    list.push(5);
    assert_eq!(list.head(), Some(2));
    assert!(list.free_list().is_empty());
    assert_eq!(list.slots(), 3);
    assert_eq!(collect(list), vec![5, 1, 4]);
}
