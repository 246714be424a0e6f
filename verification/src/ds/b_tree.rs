//! An unbalanced binary search tree whose nodes live in an arena and name
//! their children by slot index.

use super::order::{
    ascending, lemma_ascending_index, lemma_ascending_remove, lemma_less_asymmetric,
    lemma_sorted_pos_bounds, less, sorted_pos, total_order,
};
use super::shape::Shape;
use vstd::prelude::*;

verus! {

/// One slot of the arena: a value and the slots of its two children.
#[derive(Debug)]
pub struct Node<T> {
    pub val: T,
    pub left: Option<usize>,
    pub right: Option<usize>,
}

impl<T: Clone> Clone for Node<T> {
    /// A node with a clone of the value and the same links.
    fn clone(&self) -> (copy: Self)
        ensures
            cloned(self.val, copy.val),
            copy.left == self.left,
            copy.right == self.right,
    {
        Node { val: self.val.clone(), left: self.left, right: self.right }
    }
}

impl<T> Node<T> {
    /// Neither child is present.
    pub fn is_leaf(&self) -> (r: bool)
        ensures
            r == (self.left is None && self.right is None),
    {
        self.left.is_none() && self.right.is_none()
    }

    /// Both children are present.
    pub fn is_full(&self) -> (r: bool)
        ensures
            r == (self.left is Some && self.right is Some),
    {
        self.left.is_some() && self.right.is_some()
    }
}

/// A binary search tree without duplicates. Its nodes are the slots of one
/// vector; a slot that a removal has released is used again before the
/// vector grows.
pub struct BTree<T> {
    /// The arena: nodes are referred to by their index in it.
    items: Vec<Node<T>>,
    /// The slot of the root node.
    root: Option<usize>,
    /// The released slots, the one to be used next at the end.
    free_list: Vec<usize>,
    /// The number of values in the tree.
    n: usize,
    /// The tree that the links of the arena form.
    shape: Ghost<Shape<T>>,
}

impl<T> Default for BTree<T> {
    /// An empty tree.
    fn default() -> (tree: Self)
        ensures
            tree.linked(),
            tree.shape() is Leaf,
            tree.nodes().len() == 0,
            tree.free_slots().len() == 0,
    {
        BTree {
            items: Vec::new(),
            root: None,
            free_list: Vec::new(),
            n: 0,
            shape: Ghost(Shape::Leaf),
        }
    }
}

impl<T> View for BTree<T> {
    type V = Seq<T>;

    /// The values of the tree in in-order.
    open spec fn view(&self) -> Seq<T> {
        self.shape().values()
    }
}

impl<T> BTree<T> {
    /// The tree that the links of the arena form.
    pub closed spec fn shape(&self) -> Shape<T> {
        self.shape@
    }

    /// The arena, slot by slot, released slots included.
    pub closed spec fn nodes(&self) -> Seq<Node<T>> {
        self.items@
    }

    /// The released slots; the last one is the next to be used again.
    pub closed spec fn free_slots(&self) -> Seq<usize> {
        self.free_list@
    }

    /// The link to the root node.
    pub closed spec fn root_link(&self) -> Option<usize> {
        self.root
    }

    /// The stored count of values.
    pub closed spec fn live(&self) -> nat {
        self.n as nat
    }

    /// The slot that the next new node takes: the released slot that is next
    /// in line, or a new one behind the last.
    pub open spec fn next_slot(&self) -> usize {
        if self.free_slots().len() > 0 {
            self.free_slots().last()
        } else {
            self.nodes().len() as usize
        }
    }

    /// The slot of the node that holds `item`. Meant for a value of the tree.
    pub open spec fn slot_of(&self, item: T) -> usize {
        self.shape().slots()[self@.index_of(item)]
    }

    /// The node in slot `i` has both children.
    pub open spec fn full_at(&self, i: usize) -> bool {
        self.nodes()[i as int].left is Some && self.nodes()[i as int].right is Some
    }

    /// This tree is `before` with the node in slot `d` spliced out and the
    /// slot released.
    pub open spec fn spliced_from(&self, before: Self, d: usize) -> bool {
        &&& self.shape() == before.shape().spliced(d)
        &&& 0 <= before.shape().rank(d) < before@.len()
        &&& self@ == before@.remove(before.shape().rank(d))
        &&& self.free_slots() == before.free_slots().push(d)
        &&& self.nodes().len() == before.nodes().len()
        &&& forall|i: usize| #[trigger] self.shape().has(i) <==> before.shape().has(i) && i != d
        &&& forall|j: int|
            0 <= j < self.nodes().len() ==> (#[trigger] self.nodes()[j]).val == before.nodes()[j].val
        &&& self.released_kept(before)
    }

    /// Every slot that is no node of this tree holds what it held in
    /// `before`: an operation leaves the released slots alone, the one it
    /// releases included.
    pub open spec fn released_kept(&self, before: Self) -> bool {
        forall|j: int|
            0 <= j < before.nodes().len() && j < self.nodes().len() && !self.shape().has(j as usize)
                ==> (#[trigger] self.nodes()[j]) == before.nodes()[j]
    }

    /// The linkage invariant: the arena realises the shape, which is a tree
    /// hanging from the root link; the count is the number of its nodes; every
    /// slot is either a node or released, and none is released twice.
    pub open spec fn linked(&self) -> bool {
        &&& self.shape().fits(self.nodes())
        &&& self.shape().link() == self.root_link()
        &&& self.shape().distinct()
        &&& self.shape().size() == self.live()
        &&& self.live() + self.free_slots().len() == self.nodes().len()
        &&& self.free_slots().no_duplicates()
        &&& forall|k: int|
            0 <= k < self.free_slots().len() ==> (#[trigger] self.free_slots()[k])
                < self.nodes().len() && !self.shape().has(self.free_slots()[k])
    }
}

impl<T: PartialOrd> BTree<T> {
    /// The invariant of the tree: sound linkage and search-tree order.
    pub open spec fn wf(&self) -> bool {
        &&& self.linked()
        &&& self.shape().ordered()
    }

    /// This tree is `before` with `item` inserted: the value stands at its
    /// sorted position, its node hangs where the search for it ended, in the
    /// slot that was next in line, the arena grew only if no released slot
    /// was left, and the slots that stay released hold what they held.
    pub open spec fn grew_from(&self, before: Self, item: T) -> bool {
        &&& self@ == before@.insert(sorted_pos(before@, item), item)
        &&& self.shape() == before.shape().grown(item, before.next_slot())
        &&& self.root_link() == Some(
            match before.root_link() {
                Some(i) => i,
                None => before.next_slot(),
            },
        )
        &&& before.free_slots().len() > 0 ==> {
            &&& self.free_slots() == before.free_slots().drop_last()
            &&& self.nodes().len() == before.nodes().len()
        }
        &&& before.free_slots().len() == 0 ==> {
            &&& self.free_slots() == before.free_slots()
            &&& self.nodes().len() == before.nodes().len() + 1
        }
        &&& self.released_kept(before)
    }

    /// This tree is `before` with `item` removed. The value is gone from the
    /// in-order values and no other is. A node with at most one child was
    /// spliced out and its slot released. A node with two children kept its
    /// slot and took the value of the node that follows it in in-order, and
    /// the slot of that node was released. Released slots hold what they
    /// held.
    pub open spec fn shrank_from(&self, before: Self, item: T) -> bool {
        let k = before@.index_of(item);
        let i = before.slot_of(item);
        &&& self@ == before@.remove(k)
        &&& self.nodes().len() == before.nodes().len()
        &&& before.full_at(i) ==> {
            let next = before.shape().slots()[k + 1];
            &&& self.shape() == before.shape().with_val(i, before@[k + 1]).spliced(next)
            &&& self.free_slots() == before.free_slots().push(next)
            &&& self.nodes()[i as int].val == before@[k + 1]
        }
        &&& !before.full_at(i) ==> {
            &&& self.shape() == before.shape().spliced(i)
            &&& self.free_slots() == before.free_slots().push(i)
        }
        &&& self.released_kept(before)
    }
}

impl<T: PartialOrd> BTree<T> {
    /// The search-tree order holds at every node: each value of the left
    /// subtree of the node in slot `i` sorts strictly before the node's value,
    /// and each value of its right subtree strictly after it.
    pub proof fn lemma_search_order(&self, i: usize, x: T)
        requires
            total_order::<T>(),
            self.wf(),
            self.shape().has(i),
        ensures
            i < self.nodes().len(),
            self.shape().at(i).link() == Some(i),
            self.shape().at(i)->left.holds(x) ==> less(x, self.nodes()[i as int].val),
            self.shape().at(i)->right.holds(x) ==> less(self.nodes()[i as int].val, x),
    {
        self.shape().lemma_at(self.nodes(), i);
        self.shape().lemma_at_ordered(i);
        self.shape().lemma_fits_bound(self.nodes(), i);
    }

    /// The count is the number of values that a walk gives, and the walk
    /// gives them in strictly ascending order.
    pub proof fn lemma_count_and_order(&self)
        requires
            total_order::<T>(),
            self.wf(),
        ensures
            self.live() == self@.len(),
            ascending(self@),
    {
        self.shape().lemma_in_order();
        self.shape().lemma_ordered_ascending();
    }

    /// A tree that took a value in holds it, holds one value more than
    /// before and no other new one: so a second insertion of the value is
    /// refused.
    pub proof fn lemma_insert_once(before: Self, after: Self, item: T)
        requires
            after.grew_from(before, item),
        ensures
            after@.contains(item),
            after@.len() == before@.len() + 1,
            forall|x: T| after@.contains(x) <==> before@.contains(x) || x == item,
    {
        let p = sorted_pos(before@, item);
        lemma_sorted_pos_bounds(before@, item);
        assert(after@[p] == item);
        assert forall|x: T| after@.contains(x) <==> before@.contains(x) || x == item by {
            if before@.contains(x) {
                let j = choose|j: int| 0 <= j < before@.len() && before@[j] == x;
                let j1 = if j < p {
                    j
                } else {
                    j + 1
                };
                assert(after@[j1] == x);
            }
            if after@.contains(x) && x != item {
                let j = choose|j: int| 0 <= j < after@.len() && after@[j] == x;
                let j0 = if j < p {
                    j
                } else {
                    j - 1
                };
                assert(before@[j0] == x);
            }
        }
    }

    /// A tree that gave a value up holds it no more and holds every other
    /// value that it held before, and none else.
    pub proof fn lemma_remove_exact(before: Self, after: Self, item: T)
        requires
            total_order::<T>(),
            before.wf(),
            before@.contains(item),
            after.shrank_from(before, item),
        ensures
            !after@.contains(item),
            after@.len() == before@.len() - 1,
            forall|x: T| x != item ==> (after@.contains(x) <==> before@.contains(x)),
    {
        let k = before@.index_of(item);
        before.shape().lemma_ordered_ascending();
        assert forall|x: T| after@.contains(x) implies before@.contains(x) && x != item by {
            let j = choose|j: int| 0 <= j < after@.len() && after@[j] == x;
            let j0 = if j < k {
                j
            } else {
                j + 1
            };
            assert(before@[j0] == x);
            if x == item {
                lemma_ascending_index(before@, j0);
            }
        }
        assert forall|x: T| x != item && before@.contains(x) implies after@.contains(x) by {
            let j = choose|j: int| 0 <= j < before@.len() && before@[j] == x;
            let j1 = if j < k {
                j
            } else {
                j - 1
            };
            assert(after@[j1] == x);
        }
    }

    /// A removal and the insertion that follows it leave the arena at its
    /// size: the new node takes the slot that the removal released.
    pub proof fn lemma_slot_reuse(first: Self, second: Self, third: Self, gone: T, come: T)
        requires
            second.shrank_from(first, gone),
            third.grew_from(second, come),
        ensures
            third.nodes().len() == first.nodes().len(),
            third.free_slots() == first.free_slots(),
    {
        assert(second.free_slots().len() > 0);
        assert(second.free_slots().drop_last() == first.free_slots());
    }

    /// Removing the value of a node with two children leaves the node in
    /// its slot, holding the value that followed in in-order, and releases the
    /// slot that held that value.
    pub proof fn lemma_two_child_removal(before: Self, after: Self, item: T)
        requires
            total_order::<T>(),
            before.wf(),
            before@.contains(item),
            after.shrank_from(before, item),
            before.full_at(before.slot_of(item)),
        ensures
            before@.index_of(item) + 1 < before@.len(),
            after@ == before@.remove(before@.index_of(item)),
            after.nodes()[before.slot_of(item) as int].val == before@[before@.index_of(item) + 1],
            after.free_slots().last() == before.shape().slots()[before@.index_of(item) + 1],
            after.free_slots().last() != before.slot_of(item),
    {
        let shape = before.shape();
        let k = before@.index_of(item);
        let i = shape.slots()[k];
        shape.lemma_in_order();
        assert(shape.slots().contains(i));
        shape.lemma_at(before.nodes(), i);
        shape.lemma_rank(i);
        shape.lemma_successor(i);
        let w = shape.at(i)->right.first_slot();
        shape.lemma_rank(w);
        shape.lemma_slots_distinct();
    }
}

impl<T: Copy + PartialEq + PartialOrd> BTree<T> {
    /// An empty tree.
    pub fn new() -> (tree: Self)
        ensures
            tree.wf(),
            tree@ == Seq::<T>::empty(),
            tree.shape() is Leaf,
            tree.nodes().len() == 0,
            tree.free_slots().len() == 0,
    {
        Self::default()
    }

    /// Inserts `item` unless the tree holds it already, and says whether it
    /// did. The new node takes the released slot that is next in line, and
    /// the arena grows only when there is none.
    pub fn insert(&mut self, item: T) -> (inserted: bool)
        requires
            total_order::<T>(),
            old(self).wf(),
        ensures
            final(self).wf(),
            inserted == !old(self)@.contains(item),
            !inserted ==> *final(self) == *old(self),
            inserted ==> final(self).grew_from(*old(self), item),
    {
        match self.root {
            Some(i) => self.add_tree(i, item),
            None => {
                // first item becomes the tree root
                let ghost before = self.shape@;
                let idx = self.add_item(item);
                self.root = Some(idx);
                proof {
                    self.shape@ = before.grown(item, idx);
                    before.lemma_grown(item, idx);
                    before.lemma_grown_in_order(item, idx);
                    before.lemma_landing(item);
                    before.lemma_in_order();
                    before.lemma_grown_fits(old(self).items@, self.items@, item, idx);
                }
                true
            },
        }
    }

    /// The number of values in the tree.
    pub fn count(&self) -> (n: usize)
        ensures
            n == self.live(),
            self.linked() ==> n == self@.len(),
    {
        proof {
            self.shape@.lemma_in_order();
        }
        self.n
    }

    /// Whether the tree holds no value.
    pub fn is_empty(&self) -> (r: bool)
        ensures
            r == (self.live() == 0),
            self.linked() ==> r == (self@.len() == 0),
    {
        proof {
            self.shape@.lemma_in_order();
        }
        self.n == 0
    }

    /// Walks down from `parent_idx`, the root, to the place where `item`
    /// belongs, and hangs a new node there unless the walk meets `item`.
    fn add_tree(&mut self, parent_idx: usize, item: T) -> (inserted: bool)
        requires
            total_order::<T>(),
            old(self).wf(),
            old(self).root == Some(parent_idx),
        ensures
            final(self).wf(),
            inserted == !old(self)@.contains(item),
            !inserted ==> *final(self) == *old(self),
            inserted ==> final(self).grew_from(*old(self), item),
    {
        let ghost whole = self.shape@;
        let ghost mut sub = self.shape@;
        let mut cur = parent_idx;
        proof {
            whole.lemma_in_order();
        }
        loop
            invariant
                total_order::<T>(),
                *self == *old(self),
                self.wf(),
                whole == self.shape@,
                whole is Fork,
                sub is Fork,
                sub.link() == Some(cur),
                sub.fits(self.items@),
                sub.ordered(),
                whole.holds(item) <==> sub.holds(item),
                !sub.holds(item) ==> whole.attach(item) == sub.attach(item),
                forall|j: usize| #[trigger] sub.has(j) ==> whole.has(j),
                forall|v: T| #[trigger] whole.holds(v) <==> whole.values().contains(v),
            decreases sub.size(),
        {
            let node_val = self.items[cur].val;
            let left = self.items[cur].left;
            let right = self.items[cur].right;
            if node_val == item {
                return false;  // no duplicates allowed
            }
            let go_left = item < node_val;
            let next = if go_left {
                left
            } else {
                right
            };
            proof {
                assert(node_val == sub->val);
                assert(go_left == less(item, node_val));
                if go_left {
                    lemma_less_asymmetric(item, node_val);
                    assert(!sub->right.holds(item));
                } else {
                    assert(!sub->left.holds(item));
                }
                assert(sub.has(cur));
                if next is None {
                    assert(if go_left {
                        *sub->left is Leaf
                    } else {
                        *sub->right is Leaf
                    });
                    assert(node_val != item);
                    assert(!sub->left.holds(item));
                    assert(!sub->right.holds(item));
                    assert(!sub.holds(item));
                    assert(sub.attach(item) == cur);
                }
            }
            match next {
                Some(i) => {
                    // keep walking
                    proof {
                        let child = if go_left {
                            *sub->left
                        } else {
                            *sub->right
                        };
                        assert(sub.holds(item) <==> child.holds(item));
                        assert(sub.attach(item) == child.attach(item));
                        assert forall|j: usize| #[trigger] child.has(j) implies whole.has(j) by {
                            assert(sub.has(j));
                        }
                        sub = child;
                    }
                    cur = i;
                },
                None => {
                    // insert new node
                    let idx = self.add_item(item);
                    if go_left {
                        self.items[cur].left = Some(idx);
                    } else {
                        self.items[cur].right = Some(idx);
                    }
                    proof {
                        let a = old(self).items@;
                        let b = self.items@;
                        self.shape@ = whole.grown(item, idx);
                        assert(!whole.has(idx)) by {
                            if whole.has(idx) {
                                whole.lemma_fits_bound(a, idx);
                            }
                        }
                        assert forall|i: usize|
                            #[trigger] whole.has(i) && i != cur implies b[i as int] == a[i as int] by {
                            whole.lemma_fits_bound(a, i);
                        }
                        whole.lemma_grown(item, idx);
                        whole.lemma_grown_in_order(item, idx);
                        whole.lemma_landing(item);
                        whole.lemma_grown_fits(a, b, item, idx);
                    }
                    return true;
                },
            }
        }
    }

    /// Allocates a slot for a fresh node holding `item`: the released slot
    /// that is next in line, or a new one at the end of the arena.
    fn add_item(&mut self, item: T) -> (idx: usize)
        requires
            old(self).n + old(self).free_list@.len() == old(self).items@.len(),
            forall|k: int|
                0 <= k < old(self).free_list@.len() ==> (#[trigger] old(self).free_list@[k]) < old(
                    self,
                ).items@.len(),
        ensures
            final(self).shape == old(self).shape,
            final(self).root == old(self).root,
            final(self).n == old(self).n + 1,
            idx < final(self).items@.len(),
            final(self).items@[idx as int] == (Node { val: item, left: None, right: None }),
            old(self).free_list@.len() > 0 ==> {
                &&& idx == old(self).free_list@.last()
                &&& final(self).free_list@ == old(self).free_list@.drop_last()
                &&& final(self).items@ == old(self).items@.update(
                    idx as int,
                    Node { val: item, left: None, right: None },
                )
            },
            old(self).free_list@.len() == 0 ==> {
                &&& idx == old(self).items@.len()
                &&& final(self).free_list@ == old(self).free_list@
                &&& final(self).items@ == old(self).items@.push(
                    Node { val: item, left: None, right: None },
                )
            },
    {
        let n = Node { val: item, left: None, right: None };
        assert(self.items@.len() == self.items.len());
        let idx = match self.free_list.pop() {
            None => {
                // free node list is empty so add to end of array
                self.items.push(n);
                self.items.len() - 1
            },
            Some(i) => {
                // use free node
                self.items[i] = n;
                i
            },
        };
        self.n += 1;
        idx
    }

    /// The slot of the root node.
    pub fn root(&self) -> (r: Option<usize>)
        ensures
            r == self.root_link(),
    {
        self.root
    }

    /// The number of slots of the arena, released ones included.
    pub fn slots(&self) -> (n: usize)
        ensures
            n == self.nodes().len(),
    {
        self.items.len()
    }

    /// The node in slot `i` of the arena.
    pub fn node(&self, i: usize) -> (node: &Node<T>)
        requires
            i < self.nodes().len(),
        ensures
            *node == self.nodes()[i as int],
    {
        &self.items[i]
    }

    /// The released slots; the last one is the next to be used again.
    pub fn free_list(&self) -> (free: &Vec<usize>)
        ensures
            free@ == self.free_slots(),
    {
        &self.free_list
    }

    /// Searches the subtree under `from` for `val`. Gives the slot that
    /// holds it and the slot of its parent, which for `from` itself is `prev`;
    /// `(None, None)` if the subtree does not hold `val`.
    pub fn find_item_index(&self, from: Option<usize>, val: T, prev: Option<usize>) -> (r: (
        Option<usize>,
        Option<usize>,
    ))
        requires
            total_order::<T>(),
            self.wf(),
            from matches Some(i) ==> self.shape().has(i),
        ensures
            match r.0 {
                Some(i) => {
                    &&& self.shape().below(from).has(i)
                    &&& self.shape().has(i)
                    &&& i < self.nodes().len()
                    &&& self.nodes()[i as int].val == val
                    &&& r.1 == (if Some(i) == from {
                        prev
                    } else {
                        self.shape().parent_of(i)
                    })
                },
                None => !self.shape().below(from).holds(val) && r.1 is None,
            },
    {
        let ghost whole = self.shape@;
        let ghost top = whole.below(from);
        let ghost mut sub = top;
        let mut cur = from;
        let mut parent = prev;
        proof {
            if let Some(i) = from {
                whole.lemma_at(self.items@, i);
                whole.lemma_at_ordered(i);
            }
        }
        loop
            invariant
                total_order::<T>(),
                self.wf(),
                whole == self.shape@,
                top == whole.below(from),
                top.fits(self.items@),
                top.distinct(),
                top.link() == from,
                forall|j: usize| #[trigger] top.has(j) ==> whole.has(j),
                sub.fits(self.items@),
                sub.ordered(),
                sub.link() == cur,
                forall|j: usize| #[trigger] sub.has(j) ==> top.has(j),
                top.holds(val) <==> sub.holds(val),
                cur matches Some(c) ==> parent == (if cur == from {
                    prev
                } else {
                    whole.parent_of(c)
                }),
            decreases sub.size(),
        {
            match cur {
                Some(i) => {
                    proof {
                        assert(sub.has(i));
                        assert(top.has(i));
                        whole.lemma_fits_bound(self.items@, i);
                    }
                    let curr = self.items[i].val;
                    if curr == val {
                        return (Some(i), parent);
                    }
                    let go_left = val < curr;
                    let next = if go_left {
                        self.items[i].left
                    } else {
                        self.items[i].right
                    };
                    proof {
                        let child = if go_left {
                            *sub->left
                        } else {
                            *sub->right
                        };
                        assert(curr == sub->val);
                        if go_left {
                            lemma_less_asymmetric(val, curr);
                            assert(!sub->right.holds(val));
                        } else {
                            assert(!sub->left.holds(val));
                        }
                        assert(sub.holds(val) <==> child.holds(val));
                        assert forall|j: usize| #[trigger] child.has(j) implies top.has(j) by {
                            assert(sub.has(j));
                        }
                        if let Some(c) = next {
                            whole.lemma_parent_of_child(self.items@, i, c);
                            top.lemma_parent_of_child(self.items@, i, c);
                        }
                        sub = child;
                    }
                    parent = Some(i);
                    cur = next;
                },
                None => {
                    return (None, None);
                },
            }
        }
    }

    /// Takes the node in slot `del_idx`, which has at most one child, out of
    /// the tree: its child, if any, is linked in its place to
    /// `del_parent_idx`, or becomes the root if the node was the root. The
    /// slot is released.
    pub fn splice(&mut self, del_idx: usize, del_parent_idx: Option<usize>)
        requires
            old(self).linked(),
            old(self).shape().has(del_idx),
            !old(self).full_at(del_idx),
            old(self).root_link() != Some(del_idx) ==> del_parent_idx == old(self).shape().parent_of(
                del_idx,
            ),
        ensures
            final(self).linked(),
            final(self).spliced_from(*old(self), del_idx),
            total_order::<T>() && old(self).wf() ==> final(self).wf(),
    {
        let ghost whole = self.shape@;
        let ghost a = self.items@;
        proof {
            whole.lemma_fits_bound(a, del_idx);
            whole.lemma_in_order();
            whole.lemma_at(a, del_idx);
            whole.lemma_rank(del_idx);
            whole.lemma_parent_has(del_idx);
            assert(!whole.at(del_idx).full());
            whole.lemma_spliced(del_idx);
            whole.lemma_spliced_in_order(del_idx);
            if let Some(p) = whole.parent_of(del_idx) {
                whole.lemma_fits_bound(a, p);
            }
        }
        // if leaf then s = None otherwise is the index of the only child
        let s = if self.items[del_idx].left.is_none() {
            self.items[del_idx].right
        } else {
            self.items[del_idx].left
        };
        assert(s == whole.at(del_idx).spliced(del_idx).link());
        if Some(del_idx) == self.root {
            // if we are deleting the root then replace it with the deleted nodes child
            self.root = s;
        } else if let Some(p) = del_parent_idx {
            // otherwise attach the deleted nodes child where the deleted node was attached to its parent
            if Some(del_idx) == self.items[p].left {
                self.items[p].left = s;
            } else {
                self.items[p].right = s;
            }
            proof {
                let b = self.items@;
                assert forall|i: usize|
                    #[trigger] whole.has(i) && i != p && i != del_idx implies b[i as int]
                    == a[i as int] by {
                    whole.lemma_fits_bound(a, i);
                }
                whole.lemma_spliced_fits(a, b, del_idx);
            }
        }
        self.free_list.push(del_idx);  // add the deleted node to the free list
        self.n -= 1;  // dec the count
        proof {
            self.shape@ = whole.spliced(del_idx);
            assert(self.shape@.fits(self.items@));
            if total_order::<T>() && old(self).wf() {
                whole.lemma_ordered_ascending();
                lemma_ascending_remove(whole.values(), whole.rank(del_idx));
                self.shape@.lemma_ordered_ascending();
            }
        }
    }

    /// Removes `item` if the tree holds it, and says whether it did. A node
    /// with two children keeps its slot and takes over the value that
    /// follows in in-order, whose node is spliced out in its stead.
    pub fn remove(&mut self, item: T) -> (removed: bool)
        requires
            total_order::<T>(),
            old(self).wf(),
        ensures
            final(self).wf(),
            removed == old(self)@.contains(item),
            !removed ==> *final(self) == *old(self),
            removed ==> final(self).shrank_from(*old(self), item),
    {
        let ghost whole = self.shape@;
        let ghost a = self.items@;
        proof {
            whole.lemma_in_order();
            whole.lemma_ordered_ascending();
            assert(whole.below(self.root) == whole);
        }
        let find = self.find_item_index(self.root, item, None);
        if let Some(i) = find.0 {
            let ghost k = whole.rank(i);
            proof {
                whole.lemma_fits_bound(a, i);
                whole.lemma_at(a, i);
                whole.lemma_rank(i);
                lemma_ascending_index(whole.values(), k);
            }
            if !self.items[i].is_full() {
                self.splice(i, find.1);
            } else {
                let mut w = self.items[i].right.unwrap();
                let mut wp = i;
                let ghost t = whole.at(i);
                let ghost mut sub = *t->right;
                proof {
                    whole.lemma_child_has(a, i, w);
                    whole.lemma_fits_bound(a, w);
                    assert forall|j: usize| #[trigger] sub.has(j) implies whole.has(j) by {
                        assert(t.has(j));
                    }
                }
                while self.items[w].left.is_some()
                    invariant
                        *self == *old(self),
                        self.wf(),
                        whole == self.shape@,
                        a == self.items@,
                        sub is Fork,
                        sub.link() == Some(w),
                        sub.fits(a),
                        t->right.first_slot() == sub.first_slot(),
                        whole.has(wp),
                        w < a.len(),
                        a[wp as int].left == Some(w) || a[wp as int].right == Some(w),
                        forall|j: usize| #[trigger] sub.has(j) ==> whole.has(j),
                    decreases sub.size(),
                {
                    proof {
                        assert(sub.has(w));
                        let child = *sub->left;
                        assert forall|j: usize| #[trigger] child.has(j) implies whole.has(j) by {
                            assert(sub.has(j));
                        }
                        assert(child.has(child->slot));
                        whole.lemma_fits_bound(a, child->slot);
                        sub = child;
                    }
                    wp = w;
                    w = self.items[w].left.unwrap();
                }
                proof {
                    assert(*sub->left is Leaf);
                    assert(sub.first_slot() == w);
                    whole.lemma_successor(i);
                    whole.lemma_rank(w);
                    whole.lemma_at(a, w);
                    assert(w != i);
                }
                let succ_val = self.items[w].val;
                self.items[i].val = succ_val;
                proof {
                    let b = self.items@;
                    self.shape@ = whole.with_val(i, succ_val);
                    assert forall|j: usize| #[trigger] whole.has(j) && j != i implies b[j as int]
                        == a[j as int] by {
                        whole.lemma_fits_bound(a, j);
                    }
                    whole.lemma_with_val(a, b, i, succ_val);
                    self.shape@.lemma_parent_of_child(b, wp, w);
                }
                let ghost mid = self.shape@;
                self.splice(w, Some(wp));
                proof {
                    assert(mid.values().remove(k + 1) =~= whole.values().remove(k));
                    lemma_ascending_remove(whole.values(), k);
                    self.shape@.lemma_ordered_ascending();
                }
            }
            true
        } else {
            false
        }
    }
}

/// The values that a walk still owes for the nodes on its stack, the top of
/// the stack first: each node's own value, then those of its right subtree.
pub open spec fn pending<T>(stack: Seq<Shape<T>>) -> Seq<T>
    decreases stack.len(),
{
    if stack.len() == 0 {
        Seq::empty()
    } else {
        seq![stack.last()->val] + stack.last()->right.values() + pending(stack.drop_last())
    }
}

/// An in-order walk over a tree that it owns. The walk keeps the ancestors
/// it has yet to visit on a stack of its own, so its depth costs no call
/// stack.
pub struct BTreeIter<T> {
    /// The node whose subtree is walked next.
    curr_node_idx: Option<usize>,
    /// The ancestors whose value and right subtree are still to come.
    walk_stack: Vec<usize>,
    tree: BTree<T>,
    /// The subtree under the current node.
    below: Ghost<Shape<T>>,
    /// The subtrees under the nodes on the stack.
    waiting: Ghost<Seq<Shape<T>>>,
}

impl<T> View for BTreeIter<T> {
    type V = Seq<T>;

    /// The values still to come, in the order in which they come.
    closed spec fn view(&self) -> Seq<T> {
        self.below@.values() + pending(self.waiting@)
    }
}

impl<T> BTreeIter<T> {
    /// The tree that the walk owns.
    pub closed spec fn tree(&self) -> BTree<T> {
        self.tree
    }

    /// The invariant of the walk: the current link and the stack name nodes
    /// of the tree.
    pub closed spec fn wf(&self) -> bool {
        &&& self.below@.fits(self.tree.items@)
        &&& self.below@.link() == self.curr_node_idx
        &&& self.waiting@.len() == self.walk_stack@.len()
        &&& forall|k: int|
            0 <= k < self.waiting@.len() ==> {
                &&& (#[trigger] self.waiting@[k]) is Fork
                &&& self.waiting@[k]->slot == self.walk_stack@[k]
                &&& self.waiting@[k].fits(self.tree.items@)
            }
    }
}

impl<T: Copy> BTree<T> {
    /// Starts an in-order walk, which takes the tree over.
    pub fn into_iter(self) -> (iter: BTreeIter<T>)
        requires
            self.linked(),
        ensures
            iter.wf(),
            iter@ == self@,
            iter.tree() == self,
    {
        let ghost shape = self.shape@;
        BTreeIter {
            curr_node_idx: self.root,
            walk_stack: Vec::new(),
            tree: self,
            below: Ghost(shape),
            waiting: Ghost(Seq::empty()),
        }
    }
}

impl<T: Copy> BTreeIter<T> {
    /// The next value of the walk, or `None` when all have been given.
    pub fn next(&mut self) -> (r: Option<T>)
        requires
            old(self).wf(),
        ensures
            final(self).wf(),
            final(self).tree() == old(self).tree(),
            old(self)@.len() == 0 ==> r is None && final(self)@ == old(self)@,
            old(self)@.len() > 0 ==> r == Some(old(self)@[0]) && final(self)@ == old(self)@.drop_first(),
    {
        // loop result is the next value in the iterator
        loop
            invariant
                self.wf(),
                self@ == old(self)@,
                self.tree == old(self).tree,
            decreases self.below@.size(),
        {
            let ghost sub = self.below@;
            let ghost stack = self.waiting@;
            // look at the current node
            match self.curr_node_idx {
                Some(curr_idx) => {
                    // check the left branch of the current node
                    match self.tree.items[curr_idx].left {
                        Some(i) => {
                            // descend down the left branch
                            // remember the current node to come back to after walking the left branch
                            self.walk_stack.push(curr_idx);
                            self.curr_node_idx = Some(i);  // current is now the left child
                            proof {
                                self.waiting@ = stack.push(sub);
                                self.below@ = *sub->left;
                                assert(stack.push(sub).drop_last() == stack);
                                assert(pending(stack.push(sub)) == seq![sub->val]
                                    + sub->right.values() + pending(stack));
                                assert(sub.values() + pending(stack) =~= sub->left.values()
                                    + pending(stack.push(sub)));
                            }
                        },
                        None => {
                            // no left branch prep to output current value
                            let val = self.tree.items[curr_idx].val;
                            // see if there is a right branch
                            self.curr_node_idx = self.tree.items[curr_idx].right;
                            proof {
                                self.below@ = *sub->right;
                                assert(*sub->left is Leaf);
                                assert(sub->left.values() =~= Seq::<T>::empty());
                                assert(sub.values() =~= seq![val] + sub->right.values());
                                assert((sub.values() + pending(stack)).drop_first()
                                    =~= sub->right.values() + pending(stack));
                            }
                            return Some(val);  // get the iterator to return the current nodes value
                        },
                    }
                },
                None => {
                    // no current node so check the descent stack
                    proof {
                        assert(sub is Leaf);
                        assert(sub.values() =~= Seq::<T>::empty());
                    }
                    match self.walk_stack.pop() {
                        Some(i) => {
                            // prep to output the current value before trying to descend right branch
                            let ghost top = stack.last();
                            let val = self.tree.items[i].val;
                            self.curr_node_idx = self.tree.items[i].right;
                            proof {
                                self.waiting@ = stack.drop_last();
                                self.below@ = *top->right;
                                assert((sub.values() + pending(stack)).drop_first()
                                    =~= top->right.values() + pending(stack.drop_last()));
                            }
                            return Some(val);
                        },
                        None => {
                            // walked the whole tree
                            proof {
                                assert(pending(stack) =~= Seq::<T>::empty());
                            }
                            return None;
                        },
                    }
                },
            }
        }
    }
}

} // verus!
