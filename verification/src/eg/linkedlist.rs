//! A bare list over the shared arena.

use crate::ds::backing::list::ListData;
use crate::ds::chain::Node;
use vstd::prelude::*;

verus! {

/// A list that only takes values in: each goes into a node that links to
/// the arena's head.
pub struct List<T: Copy> {
    data: ListData<Node<T>>,
}

impl<T: Copy> List<T> {
    /// The arena that holds the nodes.
    pub closed spec fn arena(&self) -> ListData<Node<T>> {
        self.data
    }

    /// An empty list.
    pub fn new() -> (list: List<T>)
        ensures
            list.arena().wf(),
            list.arena().nodes().len() == 0,
            list.arena().live() == 0,
            list.arena().head_link() is None,
    {
        Self { data: ListData::new() }
    }

    /// The number of values in the list.
    pub fn len(&self) -> (n: usize)
        ensures
            n == self.arena().live(),
    {
        self.data.len()
    }

    /// The arena that holds the nodes.
    pub fn data(&self) -> (data: &ListData<Node<T>>)
        ensures
            *data == self.arena(),
    {
        &self.data
    }

    /// Stores `val` in a node that links to the arena's head, and gives the
    /// node's slot.
    pub fn add(&mut self, val: T) -> (idx: usize)
        requires
            old(self).arena().wf(),
        ensures
            final(self).arena().wf(),
            idx == old(self).arena().next_slot(),
            final(self).arena().nodes()[idx as int] == (Node {
                val,
                next: old(self).arena().head_link(),
            }),
            !old(self).arena().in_use(idx),
            final(self).arena().in_use(idx),
            final(self).arena().live() == old(self).arena().live() + 1,
            final(self).arena().head_link() == old(self).arena().head_link(),
            forall|i: usize|
                #[trigger] old(self).arena().in_use(i) ==> {
                    &&& final(self).arena().in_use(i)
                    &&& final(self).arena().nodes()[i as int] == old(self).arena().nodes()[i as int]
                },
            old(self).arena().free_slots().len() > 0 ==> {
                &&& final(self).arena().free_slots() == old(self).arena().free_slots().drop_last()
                &&& final(self).arena().nodes() == old(self).arena().nodes().update(
                    idx as int,
                    Node { val, next: old(self).arena().head_link() },
                )
            },
            old(self).arena().free_slots().len() == 0 ==> {
                &&& final(self).arena().free_slots() == old(self).arena().free_slots()
                &&& final(self).arena().nodes() == old(self).arena().nodes().push(
                    Node { val, next: old(self).arena().head_link() },
                )
            },
    {
        let item = Node { val, next: self.data.head() };
        self.data.add_item(item)
    }
}

} // verus!
