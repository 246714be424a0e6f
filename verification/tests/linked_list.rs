use arena_collections::ds::linked_list::LinkedList;

fn collect(list: LinkedList<i32>) -> Vec<i32> {
    let mut vals = Vec::new();
    let mut iter = list.into_iter();
    while let Some(v) = iter.next() {
        vals.push(v);
    }
    vals
}

#[test]
fn linked_list_empty() {
    let list = LinkedList::<i32>::new();
    assert_eq!(list.len(), 0);
    assert_eq!(list.head(), None);
    assert_eq!(list.tail(), None);
    let mut iter = list.into_iter();
    while let Some(_) = iter.next() {
        assert!(false);
    }
}

#[test]
fn linked_list_push() {
    let mut list = LinkedList::<i32>::new();
    list.push(1);
    assert_eq!(list.data().len(), 1);
    assert_eq!(list.head(), Some(0));
    assert_eq!(list.tail(), Some(0));
    assert_eq!(list.len(), 1);

    list.push(2);
    assert_eq!(list.data().len(), 2);
    assert_eq!(list.head(), Some(1));
    assert_eq!(list.tail(), Some(0));
    assert_eq!(list.len(), 2);
    let mut i = 2;
    let mut iter = list.into_iter();
    while let Some(x) = iter.next() {
        assert_eq!(x, i);
        i -= 1;
    }
    assert_eq!(i, 0);
}

#[test]
fn linked_list_pop() {
    let mut list = LinkedList::<i32>::new();
    list.push(1);
    list.push(2);
    let val = list.pop();
    assert_eq!(val, Some(2));
    assert_eq!(list.len(), 1);
    assert_eq!(list.head(), Some(0));
    assert_eq!(list.tail(), Some(0));

    let val = list.pop();
    assert_eq!(val, Some(1));
    assert_eq!(list.len(), 0);
    assert_eq!(list.head(), None);
    assert_eq!(list.tail(), None);

    let val = list.pop();
    assert_eq!(val, None);
}

#[test]
fn linked_list_push_n_pop() {
    let mut list = LinkedList::<i32>::new();
    list.push(1);
    list.push(2);
    let val = list.pop();
    assert_eq!(val, Some(2));
    list.push(3);

    assert_eq!(list.head(), Some(1));
    assert_eq!(list.tail(), Some(0));
    assert_eq!(list.len(), 2);

    let expected = vec![3, 1];
    let mut i = 0;
    let mut iter = list.into_iter();
    while let Some(x) = iter.next() {
        assert_eq!(x, expected[i]);
        i += 1;
    }
    assert_eq!(i, 2);
}

#[test]
fn linked_list_add_tail() {
    let mut list = LinkedList::<i32>::new();
    list.add_tail(1);
    assert_eq!(list.len(), 1);
    assert_eq!(list.head(), Some(0));
    assert_eq!(list.tail(), Some(0));
    list.push(2);
    assert_eq!(list.len(), 2);
    assert_eq!(list.head(), Some(1));
    assert_eq!(list.tail(), Some(0));
    list.add_tail(3);
    assert_eq!(list.len(), 3);
    assert_eq!(list.head(), Some(1));
    assert_eq!(list.tail(), Some(2));
}

#[test]
fn linked_list_rem_tail() {
    let mut list = LinkedList::<i32>::new();
    list.add_tail(1);
    list.add_tail(2);
    list.add_tail(3);
    let x = list.remove_tail().unwrap();
    assert_eq!(x, 3);
    let x = list.remove_tail().unwrap();
    assert_eq!(x, 2);
    let x = list.remove_tail().unwrap();
    assert_eq!(x, 1);
    assert!(list.is_empty());
}

#[test]
fn linked_list_all_ops() {
    let mut list = LinkedList::<i32>::new();
    assert!(list.is_empty());
    list.push(2);
    list.push(1);
    list.push(40);
    list.add_tail(3);
    list.add_tail(4);
    list.add_tail(45);
    let x = list.pop();
    assert_eq!(x.unwrap(), 40);
    let x = list.remove_tail();
    assert_eq!(x.unwrap(), 45);
    assert_eq!(list.len(), 4);
    let mut i = 1;
    let mut iter = list.into_iter();
    while let Some(x) = iter.next() {
        assert_eq!(x, i);
        i += 1;
    }
    assert_eq!(i, 5);
}

#[test]
fn linked_list_remove_tail_of_empty_list() {
    let mut list = LinkedList::<i32>::new();
    assert_eq!(list.remove_tail(), None);
    assert_eq!(list.len(), 0);
}

#[test]
fn linked_list_reused_slot_is_written_in_full() {
    // the slot released by the first removal held a link to a node that is
    // gone by the time the slot is used again at the tail
    let mut list = LinkedList::<i32>::new();
    list.add_tail(1);
    list.add_tail(2);
    list.add_tail(3);
    assert_eq!(list.pop(), Some(1));
    assert_eq!(list.remove_tail(), Some(3));
    list.add_tail(4);
    list.add_tail(5);
    assert_eq!(list.len(), 3);
    assert_eq!(list.data().slots(), 3);
    assert_eq!(collect(list), vec![2, 4, 5]);
}

#[test]
fn linked_list_agrees_with_a_deque_under_mixed_operations() {
    let mut list = LinkedList::<i32>::new();
    let mut model = std::collections::VecDeque::new();
    let mut state: u64 = 7;
    for step in 0..3000 {
        state = state.wrapping_mul(6364136223846793005).wrapping_add(1442695040888963407);
        match (state >> 33) % 4 {
            0 => {
                list.push(step);
                model.push_front(step);
            }
            1 => {
                list.add_tail(step);
                model.push_back(step);
            }
            2 => assert_eq!(list.pop(), model.pop_front()),
            _ => assert_eq!(list.remove_tail(), model.pop_back()),
        }
        assert_eq!(list.len(), model.len());
        assert_eq!(list.is_empty(), model.is_empty());
        assert_eq!(list.data().slots(), list.len() + list.data().free_list().len());
    }
    let expected: Vec<i32> = model.into_iter().collect();
    assert_eq!(collect(list), expected);
}

#[test]
fn linked_list_released_slots_come_back_last_first() {
    let mut list = LinkedList::<i32>::new();
    list.push(1);
    list.push(2);
    list.push(3);
    assert_eq!(list.pop(), Some(3));
    assert_eq!(list.pop(), Some(2));
    assert_eq!(list.pop(), Some(1));
    assert_eq!(*list.data().free_list(), vec![2, 1, 0]);
    list.push(4);
    assert_eq!(list.head(), Some(0));
    assert_eq!(*list.data().free_list(), vec![2, 1]);
    list.push(5);
    assert_eq!(list.head(), Some(1));
    assert_eq!(list.tail(), Some(0));
    assert_eq!(*list.data().free_list(), vec![2]);
    // the slot that stays released holds what it held
    assert_eq!(list.data()[2].val, 3);
    assert_eq!(list.data().slots(), 3);
    assert_eq!(collect(list), vec![5, 4]);
}
