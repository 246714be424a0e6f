//! An arena of tree nodes.

use crate::ds::b_tree::Node;
use crate::ds::backing::list::lemma_distinct_bound;
use vstd::prelude::*;

verus! {

/// A store of tree nodes, addressed by slot index. It hands slots out and
/// takes them back; linking the nodes is left to its user.
pub struct Tree<T> {
    items: Vec<Node<T>>,
    head: Option<usize>,
    count: usize,
    free_list: Vec<usize>,
}

impl<T> Tree<T> {
    /// The arena, slot by slot, released slots included.
    pub closed spec fn nodes(&self) -> Seq<Node<T>> {
        self.items@
    }

    /// The released slots; the last one is the next to be handed out.
    pub closed spec fn free_slots(&self) -> Seq<usize> {
        self.free_list@
    }

    /// The number of slots in use.
    pub closed spec fn live(&self) -> nat {
        self.count as nat
    }

    /// The link to the root node.
    pub closed spec fn head_link(&self) -> Option<usize> {
        self.head
    }

    /// Slot `i` is in use: it exists and is not released.
    pub open spec fn in_use(&self, i: usize) -> bool {
        i < self.nodes().len() && !self.free_slots().contains(i)
    }

    /// The slot that the next allocation hands out.
    pub open spec fn next_slot(&self) -> usize {
        if self.free_slots().len() > 0 {
            self.free_slots().last()
        } else {
            self.nodes().len() as usize
        }
    }

    /// The invariant of the store: every slot is in use or released, and
    /// none is released twice.
    pub open spec fn wf(&self) -> bool {
        &&& self.live() + self.free_slots().len() == self.nodes().len()
        &&& self.free_slots().no_duplicates()
        &&& forall|k: int|
            0 <= k < self.free_slots().len() ==> (#[trigger] self.free_slots()[k])
                < self.nodes().len()
    }

    /// An empty store.
    pub fn new() -> (tree: Tree<T>)
        ensures
            tree.wf(),
            tree.nodes().len() == 0,
            tree.free_slots().len() == 0,
            tree.live() == 0,
            tree.head_link() is None,
    {
        Self { items: Vec::new(), head: None, count: 0, free_list: Vec::new() }
    }

    /// The number of slots in use.
    pub fn len(&self) -> (n: usize)
        ensures
            n == self.live(),
    {
        self.count
    }

    /// The node in slot `i`.
    pub fn node(&self, i: usize) -> (node: &Node<T>)
        requires
            i < self.nodes().len(),
        ensures
            *node == self.nodes()[i as int],
    {
        &self.items[i]
    }

    /// Stores `item` in a node without children and gives its slot: the
    /// released slot that is next in line, overwritten in full, or a new slot
    /// at the end of the arena.
    pub fn add_item(&mut self, item: T) -> (idx: usize)
        requires
            old(self).wf(),
        ensures
            final(self).wf(),
            idx == old(self).next_slot(),
            !old(self).in_use(idx),
            final(self).in_use(idx),
            final(self).nodes()[idx as int] == (Node { val: item, left: None, right: None }),
            forall|i: usize|
                #[trigger] old(self).in_use(i) ==> final(self).in_use(i) && final(self).nodes()[i as int]
                    == old(self).nodes()[i as int],
            final(self).live() == old(self).live() + 1,
            final(self).head_link() == old(self).head_link(),
            old(self).free_slots().len() > 0 ==> {
                &&& final(self).free_slots() == old(self).free_slots().drop_last()
                &&& final(self).nodes() == old(self).nodes().update(
                    idx as int,
                    Node { val: item, left: None, right: None },
                )
            },
            old(self).free_slots().len() == 0 ==> {
                &&& final(self).free_slots() == old(self).free_slots()
                &&& final(self).nodes() == old(self).nodes().push(
                    Node { val: item, left: None, right: None },
                )
            },
    {
        assert(self.items@.len() == self.items.len());
        let fresh = Node { val: item, left: None, right: None };
        let idx = match self.free_list.pop() {
            Some(i) => {
                self.items[i] = fresh;
                i
            },
            None => {
                self.items.push(fresh);
                self.items.len() - 1
            },
        };
        self.count += 1;
        idx
    }

    /// Releases slot `i`, which is in use. What the slot holds stays until
    /// the slot is handed out again.
    pub fn rem_item(&mut self, i: usize)
        requires
            old(self).wf(),
            old(self).in_use(i),
        ensures
            final(self).wf(),
            final(self).free_slots() == old(self).free_slots().push(i),
            final(self).nodes() == old(self).nodes(),
            !final(self).in_use(i),
            forall|j: usize| #[trigger] old(self).in_use(j) && j != i ==> final(self).in_use(j),
            final(self).live() == old(self).live() - 1,
            final(self).head_link() == old(self).head_link(),
    {
        proof {
            let grown = self.free_list@.push(i);
            lemma_distinct_bound(grown, self.items@.len());
        }
        self.free_list.push(i);
        self.count -= 1;
        proof {
            let before = old(self).free_list@;
            let after = self.free_list@;
            assert(after[before.len() as int] == i);
        }
    }
}

} // verus!
