//! The sequence that an arena of singly linked slots stands for.
//!
//! A chain is the list of slots met on the way from the head along the
//! `next` links. The lists state their contracts over the chain and over the
//! values found along it.

use super::backing::node::NodeData;
use vstd::prelude::*;

verus! {

/// One slot of a list: a value and the slot of the node that follows.
#[derive(Debug)]
pub struct Node<T: Copy> {
    pub val: T,
    pub next: Option<usize>,
}

impl<T: Copy> Clone for Node<T> {
    fn clone(&self) -> (copy: Self)
        ensures
            copy == *self,
    {
        *self
    }
}

impl<T: Copy> Copy for Node<T> {

}

impl<T: Copy> NodeData for Node<T> {
    type TVal = T;

    fn get_val(&self) -> (val: T)
        ensures
            val == self.val,
    {
        self.val
    }

    fn set_val(&mut self, new_val: T)
        ensures
            final(self).val == new_val,
            final(self).next == old(self).next,
    {
        self.val = new_val;
    }
}

/// The link to position `k` of the chain `order`: absent behind its end.
pub open spec fn link_to(order: Seq<usize>, k: int) -> Option<usize> {
    if 0 <= k < order.len() {
        Some(order[k])
    } else {
        None
    }
}

/// The arena `nodes` links the slots of `order` into one chain, in that
/// order, from `head` to `tail`: no slot occurs twice, each node's `next` is
/// the slot that follows, and the last node has none.
pub open spec fn chained<T: Copy>(
    nodes: Seq<Node<T>>,
    order: Seq<usize>,
    head: Option<usize>,
    tail: Option<usize>,
) -> bool {
    &&& order.no_duplicates()
    &&& forall|k: int|
        0 <= k < order.len() ==> (#[trigger] order[k]) < nodes.len() && nodes[order[k] as int].next
            == link_to(order, k + 1)
    &&& head == link_to(order, 0)
    &&& tail == link_to(order, order.len() - 1)
}

/// The values found along the chain `order`.
pub open spec fn values_along<T: Copy>(nodes: Seq<Node<T>>, order: Seq<usize>) -> Seq<T> {
    Seq::new(order.len(), |k: int| nodes[order[k] as int].val)
}

} // verus!
