//! A singly linked list over the shared arena.

use super::backing::list::ListData;
use super::chain::{chained, link_to, values_along, Node};
use vstd::prelude::*;

verus! {

/// A list with a head and a tail whose nodes are slots of an arena and name
/// their successor by slot index.
pub struct LinkedList<T: Copy> {
    data: ListData<Node<T>>,
    head: Option<usize>,
    tail: Option<usize>,
    /// The slots of the list, from head to tail.
    order: Ghost<Seq<usize>>,
}

impl<T: Copy> View for LinkedList<T> {
    type V = Seq<T>;

    /// The values of the list, from head to tail.
    open spec fn view(&self) -> Seq<T> {
        values_along(self.arena().nodes(), self.order())
    }
}

impl<T: Copy> LinkedList<T> {
    /// The arena that holds the nodes.
    pub closed spec fn arena(&self) -> ListData<Node<T>> {
        self.data
    }

    /// The slots of the list, from head to tail.
    pub closed spec fn order(&self) -> Seq<usize> {
        self.order@
    }

    /// The link to the first node.
    pub closed spec fn head_link(&self) -> Option<usize> {
        self.head
    }

    /// The link to the last node.
    pub closed spec fn tail_link(&self) -> Option<usize> {
        self.tail
    }

    /// The invariant of the list: the slots in use are those of one chain
    /// from head to tail.
    pub open spec fn wf(&self) -> bool {
        &&& self.arena().wf()
        &&& chained(self.arena().nodes(), self.order(), self.head_link(), self.tail_link())
        &&& self.order().len() == self.arena().live()
        &&& forall|k: int|
            0 <= k < self.order().len() ==> self.arena().in_use(#[trigger] self.order()[k])
    }

    /// This list took the slot for one new node from `before`: the released
    /// slot that was next in line, and else a new one at the end of the
    /// arena.
    pub open spec fn took_slot(&self, before: Self) -> bool {
        &&& before.arena().free_slots().len() > 0 ==> {
            &&& self.arena().free_slots() == before.arena().free_slots().drop_last()
            &&& self.arena().nodes().len() == before.arena().nodes().len()
        }
        &&& before.arena().free_slots().len() == 0 ==> {
            &&& self.arena().free_slots() == before.arena().free_slots()
            &&& self.arena().nodes().len() == before.arena().nodes().len() + 1
        }
    }

    /// Every slot that is no node of this list holds what it held in
    /// `before`: an operation leaves the released slots alone, the one it
    /// releases included.
    pub open spec fn released_kept(&self, before: Self) -> bool {
        forall|j: int|
            0 <= j < before.arena().nodes().len() && j < self.arena().nodes().len()
                && !self.order().contains(j as usize) ==> (#[trigger] self.arena().nodes()[j])
                == before.arena().nodes()[j]
    }

    /// An empty list.
    pub fn new() -> (list: Self)
        ensures
            list.wf(),
            list@ == Seq::<T>::empty(),
            list.order() == Seq::<usize>::empty(),
            list.arena().nodes().len() == 0,
            list.arena().free_slots().len() == 0,
    {
        Self { data: ListData::new(), head: None, tail: None, order: Ghost(Seq::empty()) }
    }

    /// The slot of the first node.
    pub fn head(&self) -> (r: Option<usize>)
        ensures
            r == self.head_link(),
    {
        self.head
    }

    /// The slot of the last node.
    pub fn tail(&self) -> (r: Option<usize>)
        ensures
            r == self.tail_link(),
    {
        self.tail
    }

    /// The arena that holds the nodes.
    pub fn data(&self) -> (data: &ListData<Node<T>>)
        ensures
            *data == self.arena(),
    {
        &self.data
    }

    /// Adds a new value to the front of the list.
    pub fn push(&mut self, item: T)
        requires
            old(self).wf(),
        ensures
            final(self).wf(),
            final(self)@ == seq![item] + old(self)@,
            final(self).order() == seq![old(self).arena().next_slot()] + old(self).order(),
            final(self).took_slot(*old(self)),
            final(self).released_kept(*old(self)),
    {
        let ghost before = self.order@;
        let n = Node { val: item, next: self.head };
        let idx = self.data.add_item(n);
        self.head = Some(idx);
        if self.len() == 1 {
            self.tail = self.head;
        }
        proof {
            self.order@ = seq![idx] + before;
            assert(self.order@.contains(idx)) by {
                assert(self.order@[0] == idx);
            }
        }
    }

    /// Takes the value at the front off the list and gives it; `None` if
    /// the list is empty.
    pub fn pop(&mut self) -> (r: Option<T>)
        requires
            old(self).wf(),
        ensures
            final(self).wf(),
            old(self)@.len() == 0 ==> r is None && *final(self) == *old(self),
            old(self)@.len() > 0 ==> {
                &&& r == Some(old(self)@[0])
                &&& final(self)@ == old(self)@.drop_first()
                &&& final(self).order() == old(self).order().drop_first()
                &&& final(self).arena().free_slots() == old(self).arena().free_slots().push(
                    old(self).order()[0],
                )
                &&& final(self).arena().nodes() == old(self).arena().nodes()
            },
    {
        let ghost before = self.order@;
        match self.head {
            None => None,
            Some(idx) => {
                let n = self.data[idx].next;
                let v = self.data[idx].val;
                self.head = n;
                self.data.rem_item(idx);
                if self.is_empty() {
                    self.tail = None;
                }
                proof {
                    self.order@ = before.drop_first();
                }
                Some(v)
            },
        }
    }

    /// Adds a new value to the end of the list.
    pub fn add_tail(&mut self, item: T)
        requires
            old(self).wf(),
        ensures
            final(self).wf(),
            final(self)@ == old(self)@.push(item),
            final(self).order() == old(self).order().push(old(self).arena().next_slot()),
            final(self).took_slot(*old(self)),
            final(self).released_kept(*old(self)),
    {
        let ghost before = self.order@;
        let n = Node { val: item, next: None };
        let idx = self.data.add_item(n);
        if let Some(tail_idx) = self.tail {
            let node = std::ops::IndexMut::index_mut(&mut self.data, tail_idx);
            node.next = Some(idx);
        }
        self.tail = Some(idx);
        if self.len() == 1 {
            self.head = self.tail;
        }
        proof {
            self.order@ = before.push(idx);
            assert(self.order@.contains(idx)) by {
                assert(self.order@[before.len() as int] == idx);
            }
            if before.len() > 0 {
                assert(self.order@.contains(before.last())) by {
                    assert(self.order@[before.len() - 1] == before.last());
                }
            }
        }
    }

    /// Takes the value at the end off the list and gives it; `None` if the
    /// list is empty. The node before the last is found by a walk from the
    /// head.
    pub fn remove_tail(&mut self) -> (r: Option<T>)
        requires
            old(self).wf(),
        ensures
            final(self).wf(),
            old(self)@.len() == 0 ==> r is None && *final(self) == *old(self),
            old(self)@.len() > 0 ==> {
                &&& r == Some(old(self)@.last())
                &&& final(self)@ == old(self)@.drop_last()
                &&& final(self).order() == old(self).order().drop_last()
                &&& final(self).arena().free_slots() == old(self).arena().free_slots().push(
                    old(self).order().last(),
                )
                &&& final(self).arena().nodes().len() == old(self).arena().nodes().len()
                &&& final(self).released_kept(*old(self))
            },
    {
        let ghost before = self.order@;
        let ghost a = self.data.nodes();
        let tail_idx = match self.tail {
            None => return None,
            Some(i) => i,
        };
        let result = self.data[tail_idx].val;
        self.data.rem_item(tail_idx);
        let ghost mid = self.data;
        if self.head == self.tail {
            self.head = None;
            self.tail = None;
        } else {
            let mut new_tail: usize = self.head.unwrap();
            let ghost mut pos: int = 0;
            loop
                invariant_except_break
                    self.data == mid,
                    0 <= pos < before.len() - 1,
                    new_tail == before[pos],
                invariant
                    mid.nodes() == a,
                    chained(a, before, old(self).head, old(self).tail),
                    before.len() >= 2,
                    tail_idx == before[before.len() - 1],
                    self.head == old(self).head,
                    self.tail == old(self).tail,
                    self.order == old(self).order,
                ensures
                    new_tail == before[before.len() - 2],
                    self.data.nodes() == a.update(
                        new_tail as int,
                        Node { val: a[new_tail as int].val, next: None },
                    ),
                    self.data.free_slots() == mid.free_slots(),
                    self.data.live() == mid.live(),
                decreases before.len() - pos,
            {
                let nxt_idx = self.data[new_tail].next.unwrap();
                if nxt_idx == tail_idx {
                    let node = std::ops::IndexMut::index_mut(&mut self.data, new_tail);
                    node.next = None;
                    break ;
                }
                new_tail = nxt_idx;
                proof {
                    pos = pos + 1;
                }
            }
            self.tail = Some(new_tail);
        }
        proof {
            self.order@ = before.drop_last();
        }
        Some(result)
    }

    /// The number of values in the list.
    pub fn len(&self) -> (n: usize)
        ensures
            n == self.arena().live(),
            self.wf() ==> n == self@.len(),
    {
        self.data.len()
    }

    /// Whether the list holds no value.
    pub fn is_empty(&self) -> (r: bool)
        ensures
            r == (self.arena().live() == 0),
            self.wf() ==> r == (self@.len() == 0),
    {
        self.len() == 0
    }
}

/// A walk along a list that it owns, from head to tail.
pub struct LinkedListIter<T: Copy> {
    curr_idx: Option<usize>,
    list: LinkedList<T>,
    /// How many values the walk has given.
    pos: Ghost<int>,
}

impl<T: Copy> View for LinkedListIter<T> {
    type V = Seq<T>;

    /// The values still to come, in the order in which they come.
    closed spec fn view(&self) -> Seq<T> {
        self.list@.skip(self.pos@)
    }
}

impl<T: Copy> LinkedListIter<T> {
    /// The list that the walk owns.
    pub closed spec fn list(&self) -> LinkedList<T> {
        self.list
    }

    /// The invariant of the walk: the current link names the node that is
    /// next in the list.
    pub closed spec fn wf(&self) -> bool {
        &&& self.list.wf()
        &&& 0 <= self.pos@ <= self.list.order@.len()
        &&& self.curr_idx == link_to(self.list.order@, self.pos@)
    }

    /// The next value of the walk, or `None` when all have been given.
    pub fn next(&mut self) -> (r: Option<T>)
        requires
            old(self).wf(),
        ensures
            final(self).wf(),
            final(self).list() == old(self).list(),
            old(self)@.len() == 0 ==> r is None && final(self)@ == old(self)@,
            old(self)@.len() > 0 ==> r == Some(old(self)@[0]) && final(self)@ == old(self)@.drop_first(),
    {
        let idx = match self.curr_idx {
            None => {
                return None
            },
            Some(i) => { i },
        };
        self.curr_idx = self.list.data[idx].next;
        proof {
            self.pos@ = self.pos@ + 1;
        }
        Some(self.list.data[idx].val)
    }
}

impl<T: Copy> LinkedList<T> {
    /// Starts a walk from the head, which takes the list over.
    pub fn into_iter(self) -> (iter: LinkedListIter<T>)
        requires
            self.wf(),
        ensures
            iter.wf(),
            iter@ == self@,
            iter.list() == self,
    {
        LinkedListIter { curr_idx: self.head, list: self, pos: Ghost(0) }
    }
}

} // verus!
