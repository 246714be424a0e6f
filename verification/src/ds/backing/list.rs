//! A growable arena of nodes with a free list.
//!
//! The arena hands out slots by index. A released slot goes onto the free
//! list and is handed out again, overwritten in full, before the arena grows.

use super::node::NodeData;
use vstd::prelude::*;

verus! {

/// Distinct indices below `n` are at most `n` many.
pub proof fn lemma_distinct_bound(s: Seq<usize>, n: nat)
    requires
        s.no_duplicates(),
        forall|k: int| 0 <= k < s.len() ==> (#[trigger] s[k]) < n,
    ensures
        s.len() <= n,
    decreases n,
{
    if s.len() == 0 {
    } else if n == 0 {
        assert(s[0] < n);
    } else {
        let top = (n - 1) as nat;
        if exists|j: int| 0 <= j < s.len() && s[j] == top {
            let j = choose|j: int| 0 <= j < s.len() && s[j] == top;
            let r = s.remove(j);
            lemma_distinct_bound(r, top);
        } else {
            lemma_distinct_bound(s, top);
        }
    }
}

/// The arena: the nodes of a container, addressed by slot index.
pub struct ListData<TNode: NodeData> {
    /// The nodes, released ones included.
    items: Vec<TNode>,
    /// The slot of the head node of the container.
    pub head: Option<usize>,
    /// The number of slots in use.
    count: usize,
    /// The released slots, the one to be used next at the end.
    free_list: Vec<usize>,
}

impl<TNode: NodeData> ListData<TNode> {
    /// The arena, slot by slot, released slots included.
    pub closed spec fn nodes(&self) -> Seq<TNode> {
        self.items@
    }

    /// The released slots; the last one is the next to be handed out.
    pub closed spec fn free_slots(&self) -> Seq<usize> {
        self.free_list@
    }

    /// The number of slots in use.
    pub closed spec fn live(&self) -> nat {
        self.count as nat
    }

    /// The link to the head node of the container.
    pub closed spec fn head_link(&self) -> Option<usize> {
        self.head
    }

    /// Slot `i` is in use: it exists and is not released.
    pub open spec fn in_use(&self, i: usize) -> bool {
        i < self.nodes().len() && !self.free_slots().contains(i)
    }

    /// The slot that the next allocation hands out.
    pub open spec fn next_slot(&self) -> usize {
        if self.free_slots().len() > 0 {
            self.free_slots().last()
        } else {
            self.nodes().len() as usize
        }
    }

    /// The invariant of the arena: every slot is in use or released, and
    /// none is released twice.
    pub open spec fn wf(&self) -> bool {
        &&& self.live() + self.free_slots().len() == self.nodes().len()
        &&& self.free_slots().no_duplicates()
        &&& forall|k: int|
            0 <= k < self.free_slots().len() ==> (#[trigger] self.free_slots()[k])
                < self.nodes().len()
    }

    /// An empty arena.
    pub fn new() -> (data: Self)
        ensures
            data.wf(),
            data.nodes().len() == 0,
            data.free_slots().len() == 0,
            data.live() == 0,
            data.head_link() is None,
    {
        Self { items: Vec::new(), head: None, count: 0, free_list: Vec::new() }
    }

    /// The number of slots in use.
    pub fn len(&self) -> (n: usize)
        ensures
            n == self.live(),
    {
        self.count
    }

    /// The slot of the head node of the container.
    pub fn head(&self) -> (head: Option<usize>)
        ensures
            head == self.head_link(),
    {
        self.head
    }

    /// The number of slots of the arena, released ones included.
    pub fn slots(&self) -> (n: usize)
        ensures
            n == self.nodes().len(),
    {
        self.items.len()
    }

    /// The released slots; the last one is the next to be handed out.
    pub fn free_list(&self) -> (free: &Vec<usize>)
        ensures
            free@ == self.free_slots(),
    {
        &self.free_list
    }

    /// Stores `item` and gives its slot: the released slot that is next in
    /// line, overwritten in full, or a new slot at the end of the arena.
    pub fn add_item(&mut self, item: TNode) -> (idx: usize)
        requires
            old(self).wf(),
        ensures
            final(self).wf(),
            idx == old(self).next_slot(),
            !old(self).in_use(idx),
            final(self).in_use(idx),
            final(self).nodes()[idx as int] == item,
            forall|i: usize|
                #[trigger] old(self).in_use(i) ==> final(self).in_use(i) && final(self).nodes()[i as int]
                    == old(self).nodes()[i as int],
            final(self).live() == old(self).live() + 1,
            final(self).head_link() == old(self).head_link(),
            old(self).free_slots().len() > 0 ==> {
                &&& final(self).free_slots() == old(self).free_slots().drop_last()
                &&& final(self).nodes() == old(self).nodes().update(idx as int, item)
            },
            old(self).free_slots().len() == 0 ==> {
                &&& final(self).free_slots() == old(self).free_slots()
                &&& final(self).nodes() == old(self).nodes().push(item)
            },
    {
        assert(self.items@.len() == self.items.len());
        let idx = match self.free_list.pop() {
            Some(i) => {
                self.items[i] = item;
                i
            },
            None => {
                self.items.push(item);
                self.items.len() - 1
            },
        };
        self.count += 1;
        idx
    }

    /// Releases slot `i`, which is in use. What the slot holds stays until
    /// the slot is handed out again.
    pub fn rem_item(&mut self, i: usize)
        requires
            old(self).wf(),
            old(self).in_use(i),
        ensures
            final(self).wf(),
            final(self).free_slots() == old(self).free_slots().push(i),
            final(self).nodes() == old(self).nodes(),
            !final(self).in_use(i),
            forall|j: usize| #[trigger] old(self).in_use(j) && j != i ==> final(self).in_use(j),
            final(self).live() == old(self).live() - 1,
            final(self).head_link() == old(self).head_link(),
    {
        proof {
            let grown = self.free_list@.push(i);
            lemma_distinct_bound(grown, self.items@.len());
        }
        self.free_list.push(i);
        self.count -= 1;
        proof {
            let before = old(self).free_list@;
            let after = self.free_list@;
            assert(after[before.len() as int] == i);
        }
    }
}

impl<TNode: NodeData> std::ops::Index<usize> for ListData<TNode> {
    type Output = TNode;

    /// The node in slot `index`.
    fn index(&self, index: usize) -> (node: &TNode)
        ensures
            *node == self.nodes()[index as int],
    {
        &self.items[index]
    }
}

impl<TNode: NodeData> vstd::std_specs::core::IndexSpecImpl<usize> for ListData<TNode> {
    open spec fn index_req(&self, index: &usize) -> bool {
        *index < self.nodes().len()
    }
}

impl<TNode: NodeData> std::ops::IndexMut<usize> for ListData<TNode> {
    /// The node in slot `index`, to be changed in place.
    fn index_mut(&mut self, index: usize) -> (node: &mut TNode)
        requires
            index < old(self).nodes().len(),
        ensures
            *node == old(self).nodes()[index as int],
            final(self).nodes() == old(self).nodes().update(index as int, *final(node)),
            final(self).free_slots() == old(self).free_slots(),
            final(self).live() == old(self).live(),
            final(self).head_link() == old(self).head_link(),
    {
        &mut self.items[index]
    }
}

} // verus!
