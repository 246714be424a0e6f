//! A singly linked list that keeps its own arena.

use super::chain::{chained, link_to, values_along, Node};
use vstd::prelude::*;

verus! {

/// A list with a head and a tail whose nodes are the slots of one vector and
/// name their successor by slot index. A released slot is used again before
/// the vector grows.
pub struct SlList<T: Copy> {
    /// list items are stored in a vector with vector indexes used instead of pointers
    items: Vec<Node<T>>,
    /// index of the head of the list
    head: Option<usize>,
    /// index of the tail of the list
    tail: Option<usize>,
    /// index of elements that are free on the list
    free_list: Vec<usize>,
    /// number of elements in the list
    n: usize,
    /// The slots of the list, from head to tail.
    order: Ghost<Seq<usize>>,
}

impl<T: Copy> View for SlList<T> {
    type V = Seq<T>;

    /// The values of the list, from head to tail.
    open spec fn view(&self) -> Seq<T> {
        values_along(self.nodes(), self.order())
    }
}

impl<T: Copy> Default for SlList<T> {
    /// An empty list.
    fn default() -> (list: Self)
        ensures
            list.wf(),
            list.order() == Seq::<usize>::empty(),
            list.nodes().len() == 0,
            list.free_slots().len() == 0,
    {
        Self {
            items: Vec::new(),
            head: None,
            tail: None,
            free_list: Vec::new(),
            n: 0,
            order: Ghost(Seq::empty()),
        }
    }
}

impl<T: Copy> SlList<T> {
    /// The arena, slot by slot, released slots included.
    pub closed spec fn nodes(&self) -> Seq<Node<T>> {
        self.items@
    }

    /// The released slots; the last one is the next to be used again.
    pub closed spec fn free_slots(&self) -> Seq<usize> {
        self.free_list@
    }

    /// The slots of the list, from head to tail.
    pub closed spec fn order(&self) -> Seq<usize> {
        self.order@
    }

    /// The link to the first node.
    pub closed spec fn head_link(&self) -> Option<usize> {
        self.head
    }

    /// The link to the last node.
    pub closed spec fn tail_link(&self) -> Option<usize> {
        self.tail
    }

    /// The stored count of values.
    pub closed spec fn live(&self) -> nat {
        self.n as nat
    }

    /// Slot `i` is in use: it exists and is not released.
    pub open spec fn in_use(&self, i: usize) -> bool {
        i < self.nodes().len() && !self.free_slots().contains(i)
    }

    /// The slot that the next new node takes: the released slot that is next
    /// in line, or a new one behind the last.
    pub open spec fn next_slot(&self) -> usize {
        if self.free_slots().len() > 0 {
            self.free_slots().last()
        } else {
            self.nodes().len() as usize
        }
    }

    /// The invariant of the arena: every slot is in use or released, and
    /// none is released twice.
    pub open spec fn arena_wf(&self) -> bool {
        &&& self.live() + self.free_slots().len() == self.nodes().len()
        &&& self.free_slots().no_duplicates()
        &&& forall|k: int|
            0 <= k < self.free_slots().len() ==> (#[trigger] self.free_slots()[k])
                < self.nodes().len()
    }

    /// The invariant of the list: the slots in use are those of one chain
    /// from head to tail.
    pub open spec fn wf(&self) -> bool {
        &&& self.arena_wf()
        &&& chained(self.nodes(), self.order(), self.head_link(), self.tail_link())
        &&& self.order().len() == self.live()
        &&& forall|k: int| 0 <= k < self.order().len() ==> self.in_use(#[trigger] self.order()[k])
    }

    /// This list took the slot for one new node from `before`: the released
    /// slot that was next in line, and else a new one at the end of the
    /// arena.
    pub open spec fn took_slot(&self, before: Self) -> bool {
        &&& before.free_slots().len() > 0 ==> {
            &&& self.free_slots() == before.free_slots().drop_last()
            &&& self.nodes().len() == before.nodes().len()
        }
        &&& before.free_slots().len() == 0 ==> {
            &&& self.free_slots() == before.free_slots()
            &&& self.nodes().len() == before.nodes().len() + 1
        }
    }

    /// Every slot that is no node of this list holds what it held in
    /// `before`: an operation leaves the released slots alone, the one it
    /// releases included.
    pub open spec fn released_kept(&self, before: Self) -> bool {
        forall|j: int|
            0 <= j < before.nodes().len() && j < self.nodes().len() && !self.order().contains(
                j as usize,
            ) ==> (#[trigger] self.nodes()[j]) == before.nodes()[j]
    }

    /// An empty list.
    pub fn new() -> (list: Self)
        ensures
            list.wf(),
            list@ == Seq::<T>::empty(),
            list.order() == Seq::<usize>::empty(),
            list.nodes().len() == 0,
            list.free_slots().len() == 0,
    {
        Self::default()
    }

    /// The slot of the first node.
    pub fn head(&self) -> (r: Option<usize>)
        ensures
            r == self.head_link(),
    {
        self.head
    }

    /// The slot of the last node.
    pub fn tail(&self) -> (r: Option<usize>)
        ensures
            r == self.tail_link(),
    {
        self.tail
    }

    /// The number of slots of the arena, released ones included.
    pub fn slots(&self) -> (n: usize)
        ensures
            n == self.nodes().len(),
    {
        self.items.len()
    }

    /// The node in slot `i` of the arena.
    pub fn node(&self, i: usize) -> (node: &Node<T>)
        requires
            i < self.nodes().len(),
        ensures
            *node == self.nodes()[i as int],
    {
        &self.items[i]
    }

    /// The released slots; the last one is the next to be used again.
    pub fn free_list(&self) -> (free: &Vec<usize>)
        ensures
            free@ == self.free_slots(),
    {
        &self.free_list
    }

    /// A list with the same values in a fresh arena, in which the nodes stand
    /// in the order of the list and no slot is released.
    pub fn clone(&self) -> (copy: Self)
        requires
            self.wf(),
        ensures
            copy.wf(),
            copy@ == self@,
            copy.order() == Seq::new(self@.len(), |k: int| k as usize),
            copy.nodes().len() == self@.len(),
            copy.free_slots().len() == 0,
    {
        if self.is_empty() {
            return Self::new();
        }
        let mut retval = Self::new();
        let mut curr_idx = self.head.unwrap();
        let ghost order = self.order@;
        let ghost a = self.items@;
        let ghost mut pos: int = 0;
        loop
            invariant_except_break
                0 <= pos < order.len(),
                curr_idx == order[pos],
                retval.items@.len() == pos,
                forall|k: int|
                    0 <= k < pos ==> (#[trigger] retval.items@[k]) == (Node {
                        val: a[order[k] as int].val,
                        next: Some((k + 1) as usize),
                    }),
            invariant
                self.wf(),
                order == self.order@,
                a == self.items@,
                order.len() == self.n,
                retval.head is None,
                retval.tail is None,
                retval.free_list@.len() == 0,
                retval.n == 0,
            ensures
                retval.items@.len() == order.len(),
                forall|k: int|
                    0 <= k < order.len() ==> (#[trigger] retval.items@[k]) == (Node {
                        val: a[order[k] as int].val,
                        next: link_to(Seq::new(order.len(), |j: int| j as usize), k + 1),
                    }),
            decreases order.len() - pos,
        {
            let mut n = self.items[curr_idx];
            let at_end = n.next.is_none();
            if !at_end {
                curr_idx = n.next.unwrap();
                n.next = Some(retval.items.len() + 1);
            }
            retval.items.push(n);
            if at_end {
                break ;
            }
            proof {
                pos = pos + 1;
            }
        }
        retval.n = retval.items.len();
        retval.head = Some(0);
        retval.tail = Some(retval.n - 1);
        proof {
            retval.order@ = Seq::new(order.len(), |k: int| k as usize);
        }
        retval
    }

    /// Adds a new value to the front of the list.
    pub fn push(&mut self, item: T)
        requires
            old(self).wf(),
        ensures
            final(self).wf(),
            final(self)@ == seq![item] + old(self)@,
            final(self).order() == seq![old(self).next_slot()] + old(self).order(),
            final(self).took_slot(*old(self)),
            final(self).released_kept(*old(self)),
    {
        let ghost before = self.order@;
        let idx = self.add_item(item, self.head);
        self.head = Some(idx);
        if self.n == 1 {
            self.tail = self.head;
        }
        proof {
            self.order@ = seq![idx] + before;
            assert(self.order@.contains(idx)) by {
                assert(self.order@[0] == idx);
            }
        }
    }

    /// Takes the value at the front off the list and gives it; `None` if
    /// the list is empty.
    pub fn pop(&mut self) -> (r: Option<T>)
        requires
            old(self).wf(),
        ensures
            final(self).wf(),
            old(self)@.len() == 0 ==> r is None && *final(self) == *old(self),
            old(self)@.len() > 0 ==> {
                &&& r == Some(old(self)@[0])
                &&& final(self)@ == old(self)@.drop_first()
                &&& final(self).order() == old(self).order().drop_first()
                &&& final(self).free_slots() == old(self).free_slots().push(old(self).order()[0])
                &&& final(self).nodes() == old(self).nodes()
            },
    {
        let ghost before = self.order@;
        match self.head {
            None => None,
            Some(idx) => {
                let retval = self.items[idx];
                self.head = retval.next;
                self.free_list.push(idx);
                self.n -= 1;
                if self.n == 0 {
                    self.tail = None;
                }
                proof {
                    self.order@ = before.drop_first();
                }
                Some(retval.val)
            },
        }
    }

    /// Adds a new value to the end of the list.
    pub fn add_tail(&mut self, item: T)
        requires
            old(self).wf(),
        ensures
            final(self).wf(),
            final(self)@ == old(self)@.push(item),
            final(self).order() == old(self).order().push(old(self).next_slot()),
            final(self).took_slot(*old(self)),
            final(self).released_kept(*old(self)),
    {
        let ghost before = self.order@;
        let idx = self.add_item(item, None);
        if let Some(tail_idx) = self.tail {
            self.items[tail_idx].next = Some(idx);
        }
        self.tail = Some(idx);
        if self.n == 1 {
            self.head = self.tail;
        }
        proof {
            self.order@ = before.push(idx);
            assert(self.order@.contains(idx)) by {
                assert(self.order@[before.len() as int] == idx);
            }
            if before.len() > 0 {
                assert(self.order@.contains(before.last())) by {
                    assert(self.order@[before.len() - 1] == before.last());
                }
            }
        }
    }

    /// Takes the value at the end off the list and gives it; `None` if the
    /// list is empty. The node before the last is found by a walk from the
    /// head.
    pub fn remove_tail(&mut self) -> (r: Option<T>)
        requires
            old(self).wf(),
        ensures
            final(self).wf(),
            old(self)@.len() == 0 ==> r is None && *final(self) == *old(self),
            old(self)@.len() > 0 ==> {
                &&& r == Some(old(self)@.last())
                &&& final(self)@ == old(self)@.drop_last()
                &&& final(self).order() == old(self).order().drop_last()
                &&& final(self).free_slots() == old(self).free_slots().push(old(self).order().last())
                &&& final(self).nodes().len() == old(self).nodes().len()
                &&& final(self).released_kept(*old(self))
            },
    {
        let ghost before = self.order@;
        let ghost a = self.items@;
        let tail_idx = match self.tail {
            None => return None,
            Some(i) => i,
        };
        let result = self.items[tail_idx].val;
        if self.head == self.tail {
            self.head = None;
            self.tail = None;
            self.n = 0;
        } else {
            let mut new_tail: usize = self.head.unwrap();
            let ghost mut pos: int = 0;
            loop
                invariant_except_break
                    self.items@ == a,
                    0 <= pos < before.len() - 1,
                    new_tail == before[pos],
                invariant
                    chained(a, before, old(self).head, old(self).tail),
                    before.len() >= 2,
                    tail_idx == before[before.len() - 1],
                    self.head == old(self).head,
                    self.tail == old(self).tail,
                    self.order == old(self).order,
                    self.free_list == old(self).free_list,
                    self.n == old(self).n,
                ensures
                    new_tail == before[before.len() - 2],
                    self.items@ == a.update(
                        new_tail as int,
                        Node { val: a[new_tail as int].val, next: None },
                    ),
                decreases before.len() - pos,
            {
                let nxt_idx = self.items[new_tail].next.unwrap();
                if nxt_idx == tail_idx {
                    self.items[new_tail].next = None;
                    break ;
                }
                new_tail = nxt_idx;
                proof {
                    pos = pos + 1;
                }
            }
            self.tail = Some(new_tail);
            self.n -= 1;
        }
        self.free_list.push(tail_idx);
        proof {
            self.order@ = before.drop_last();
        }
        Some(result)
    }

    /// The number of values in the list.
    pub fn len(&self) -> (n: usize)
        ensures
            n == self.live(),
            self.wf() ==> n == self@.len(),
    {
        self.n
    }

    /// Whether the list holds no value.
    pub fn is_empty(&self) -> (r: bool)
        ensures
            r == (self.live() == 0),
            self.wf() ==> r == (self@.len() == 0),
    {
        self.n == 0
    }

    /// Allocates a slot for a fresh node holding `item` and linking to
    /// `nxt`: the released slot that is next in line, or a new one at the end
    /// of the arena.
    fn add_item(&mut self, item: T, nxt: Option<usize>) -> (idx: usize)
        requires
            old(self).arena_wf(),
        ensures
            final(self).arena_wf(),
            idx == old(self).next_slot(),
            !old(self).in_use(idx),
            final(self).in_use(idx),
            final(self).items@[idx as int] == (Node { val: item, next: nxt }),
            forall|i: usize|
                #[trigger] old(self).in_use(i) ==> final(self).in_use(i) && final(self).items@[i as int]
                    == old(self).items@[i as int],
            final(self).n == old(self).n + 1,
            final(self).head == old(self).head,
            final(self).tail == old(self).tail,
            final(self).order == old(self).order,
            old(self).free_list@.len() > 0 ==> {
                &&& final(self).free_list@ == old(self).free_list@.drop_last()
                &&& final(self).items@ == old(self).items@.update(
                    idx as int,
                    Node { val: item, next: nxt },
                )
            },
            old(self).free_list@.len() == 0 ==> {
                &&& final(self).free_list@ == old(self).free_list@
                &&& final(self).items@ == old(self).items@.push(Node { val: item, next: nxt })
            },
    {
        let n: Node<T> = Node { val: item, next: nxt };
        assert(self.items@.len() == self.items.len());
        let idx = match self.free_list.pop() {
            None => {
                self.items.push(n);
                self.items.len() - 1
            },
            Some(idx) => {
                self.items[idx] = n;
                idx
            },
        };
        self.n += 1;
        idx
    }
}

/// A walk along a list that it owns, from head to tail.
pub struct SlListIter<T: Copy> {
    curr_idx: Option<usize>,
    list: SlList<T>,
    /// How many values the walk has given.
    pos: Ghost<int>,
}

impl<T: Copy> View for SlListIter<T> {
    type V = Seq<T>;

    /// The values still to come, in the order in which they come.
    closed spec fn view(&self) -> Seq<T> {
        self.list@.skip(self.pos@)
    }
}

impl<T: Copy> SlListIter<T> {
    /// The list that the walk owns.
    pub closed spec fn list(&self) -> SlList<T> {
        self.list
    }

    /// The invariant of the walk: the current link names the node that is
    /// next in the list.
    pub closed spec fn wf(&self) -> bool {
        &&& self.list.wf()
        &&& 0 <= self.pos@ <= self.list.order@.len()
        &&& self.curr_idx == link_to(self.list.order@, self.pos@)
    }

    /// The next value of the walk, or `None` when all have been given.
    pub fn next(&mut self) -> (r: Option<T>)
        requires
            old(self).wf(),
        ensures
            final(self).wf(),
            final(self).list() == old(self).list(),
            old(self)@.len() == 0 ==> r is None && final(self)@ == old(self)@,
            old(self)@.len() > 0 ==> r == Some(old(self)@[0]) && final(self)@ == old(self)@.drop_first(),
    {
        let idx = match self.curr_idx {
            None => {
                return None
            },
            Some(i) => { i },
        };
        let item = self.list.items[idx];
        self.curr_idx = item.next;
        proof {
            self.pos@ = self.pos@ + 1;
        }
        Some(item.val)
    }
}

impl<T: Copy> SlList<T> {
    /// Starts a walk from the head, which takes the list over.
    pub fn into_iter(self) -> (iter: SlListIter<T>)
        requires
            self.wf(),
        ensures
            iter.wf(),
            iter@ == self@,
            iter.list() == self,
    {
        SlListIter { curr_idx: self.head, list: self, pos: Ghost(0) }
    }
}

} // verus!
