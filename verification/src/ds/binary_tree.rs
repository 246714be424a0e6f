//! An insert-only binary search tree over the shared arena.

use super::b_tree::{pending, Node};
use super::backing::list::ListData;
use super::backing::node::NodeData;
use super::order::{lemma_less_asymmetric, less, sorted_pos, total_order};
use super::shape::Shape;
use vstd::prelude::*;

verus! {

impl<T: Copy> NodeData for Node<T> {
    type TVal = T;

    fn get_val(&self) -> (val: T)
        ensures
            val == self.val,
    {
        self.val
    }

    fn set_val(&mut self, new_val: T)
        ensures
            final(self).val == new_val,
            final(self).left == old(self).left,
            final(self).right == old(self).right,
    {
        self.val = new_val;
    }
}

/// A binary search tree without duplicates whose nodes are slots of the
/// shared arena.
pub struct BinaryTree<T: Copy> {
    data: ListData<Node<T>>,
    root: Option<usize>,
    /// The tree that the links of the arena form.
    shape: Ghost<Shape<T>>,
}

impl<T: Copy> View for BinaryTree<T> {
    type V = Seq<T>;

    /// The values of the tree in in-order.
    open spec fn view(&self) -> Seq<T> {
        self.shape().values()
    }
}

impl<T: Copy> BinaryTree<T> {
    /// The arena that holds the nodes.
    pub closed spec fn arena(&self) -> ListData<Node<T>> {
        self.data
    }

    /// The tree that the links of the arena form.
    pub closed spec fn shape(&self) -> Shape<T> {
        self.shape@
    }

    /// The link to the root node.
    pub closed spec fn root_link(&self) -> Option<usize> {
        self.root
    }

    /// The linkage invariant: the arena realises the shape, which is a tree
    /// hanging from the root link, and its nodes are the slots in use.
    pub open spec fn linked(&self) -> bool {
        &&& self.arena().wf()
        &&& self.shape().fits(self.arena().nodes())
        &&& self.shape().link() == self.root_link()
        &&& self.shape().distinct()
        &&& self.shape().size() == self.arena().live()
        &&& forall|i: usize| #[trigger] self.shape().has(i) ==> self.arena().in_use(i)
    }
}

impl<T: Copy + PartialOrd> BinaryTree<T> {
    /// The invariant of the tree: sound linkage and search-tree order.
    pub open spec fn wf(&self) -> bool {
        &&& self.linked()
        &&& self.shape().ordered()
    }

    /// This tree is `before` with `item` inserted: the value stands at its
    /// sorted position, its node hangs where the search for it ended, in the
    /// slot that was next in line, the arena grew only if no released slot
    /// was left, and the slots that stay released hold what they held.
    pub open spec fn grew_from(&self, before: Self, item: T) -> bool {
        &&& self@ == before@.insert(sorted_pos(before@, item), item)
        &&& self.shape() == before.shape().grown(item, before.arena().next_slot())
        &&& self.root_link() == Some(
            match before.root_link() {
                Some(i) => i,
                None => before.arena().next_slot(),
            },
        )
        &&& before.arena().free_slots().len() > 0 ==> {
            &&& self.arena().free_slots() == before.arena().free_slots().drop_last()
            &&& self.arena().nodes().len() == before.arena().nodes().len()
        }
        &&& before.arena().free_slots().len() == 0 ==> {
            &&& self.arena().free_slots() == before.arena().free_slots()
            &&& self.arena().nodes().len() == before.arena().nodes().len() + 1
        }
        &&& forall|j: int|
            0 <= j < before.arena().nodes().len() && !self.shape().has(j as usize) ==> (
            #[trigger] self.arena().nodes()[j]) == before.arena().nodes()[j]
    }
}

impl<T: Copy + PartialEq + PartialOrd> BinaryTree<T> {
    /// An empty tree.
    pub fn new() -> (tree: Self)
        ensures
            tree.wf(),
            tree@ == Seq::<T>::empty(),
            tree.shape() is Leaf,
            tree.arena().nodes().len() == 0,
    {
        Self { data: ListData::new(), root: None, shape: Ghost(Shape::Leaf) }
    }

    /// The slot of the root node.
    pub fn root(&self) -> (r: Option<usize>)
        ensures
            r == self.root_link(),
    {
        self.root
    }

    /// Inserts `item` unless the tree holds it already, and says whether it
    /// did.
    pub fn insert(&mut self, item: T) -> (inserted: bool)
        requires
            total_order::<T>(),
            old(self).wf(),
        ensures
            final(self).wf(),
            inserted == !old(self)@.contains(item),
            !inserted ==> *final(self) == *old(self),
            inserted ==> final(self).grew_from(*old(self), item),
    {
        match self.root {
            Some(i) => self.add_tree(i, item),
            None => {
                // first item becomes the tree root
                let ghost before = self.shape@;
                let n = Node { val: item, left: None, right: None };
                let idx = self.data.add_item(n);
                self.root = Some(idx);
                proof {
                    self.shape@ = before.grown(item, idx);
                    before.lemma_grown(item, idx);
                    before.lemma_grown_in_order(item, idx);
                    before.lemma_landing(item);
                    before.lemma_in_order();
                    before.lemma_grown_fits(old(self).data.nodes(), self.data.nodes(), item, idx);
                }
                true
            },
        }
    }

    /// The number of values in the tree.
    pub fn len(&self) -> (n: usize)
        ensures
            n == self.arena().live(),
            self.linked() ==> n == self@.len(),
    {
        proof {
            self.shape@.lemma_in_order();
        }
        self.data.len()
    }

    /// Whether the tree holds no value.
    pub fn is_empty(&self) -> (r: bool)
        ensures
            r == (self.arena().live() == 0),
            self.linked() ==> r == (self@.len() == 0),
    {
        proof {
            self.shape@.lemma_in_order();
        }
        self.data.len() == 0
    }

    /// Walks down from `parent_idx`, the root, to the place where `item`
    /// belongs, and hangs a new node there unless the walk meets `item`.
    fn add_tree(&mut self, parent_idx: usize, item: T) -> (inserted: bool)
        requires
            total_order::<T>(),
            old(self).wf(),
            old(self).root == Some(parent_idx),
        ensures
            final(self).wf(),
            inserted == !old(self)@.contains(item),
            !inserted ==> *final(self) == *old(self),
            inserted ==> final(self).grew_from(*old(self), item),
    {
        let n = Node { val: item, left: None, right: None };
        let ghost whole = self.shape@;
        let ghost mut sub = self.shape@;
        let ghost a = self.data.nodes();
        let mut cur = parent_idx;
        proof {
            whole.lemma_in_order();
        }
        loop
            invariant
                total_order::<T>(),
                *self == *old(self),
                self.wf(),
                whole == self.shape@,
                a == self.data.nodes(),
                n == (Node { val: item, left: None, right: None }),
                whole is Fork,
                sub is Fork,
                sub.link() == Some(cur),
                sub.fits(a),
                sub.ordered(),
                whole.holds(item) <==> sub.holds(item),
                !sub.holds(item) ==> whole.attach(item) == sub.attach(item),
                forall|j: usize| #[trigger] sub.has(j) ==> whole.has(j),
                forall|v: T| #[trigger] whole.holds(v) <==> whole.values().contains(v),
            decreases sub.size(),
        {
            proof {
                assert(sub.has(cur));
                whole.lemma_fits_bound(a, cur);
            }
            let node_val = self.data[cur].val;
            let left = self.data[cur].left;
            let right = self.data[cur].right;
            if node_val == item {
                return false;  // no duplicates allowed
            }
            let go_left = item < node_val;
            let next = if go_left {
                left
            } else {
                right
            };
            proof {
                assert(node_val == sub->val);
                assert(go_left == less(item, node_val));
                if go_left {
                    lemma_less_asymmetric(item, node_val);
                    assert(!sub->right.holds(item));
                } else {
                    assert(!sub->left.holds(item));
                }
                if next is None {
                    assert(if go_left {
                        *sub->left is Leaf
                    } else {
                        *sub->right is Leaf
                    });
                    assert(node_val != item);
                    assert(!sub->left.holds(item));
                    assert(!sub->right.holds(item));
                    assert(!sub.holds(item));
                    assert(sub.attach(item) == cur);
                }
            }
            match next {
                Some(i) => {
                    // keep walking
                    proof {
                        let child = if go_left {
                            *sub->left
                        } else {
                            *sub->right
                        };
                        assert(sub.holds(item) <==> child.holds(item));
                        assert(sub.attach(item) == child.attach(item));
                        assert forall|j: usize| #[trigger] child.has(j) implies whole.has(j) by {
                            assert(sub.has(j));
                        }
                        sub = child;
                    }
                    cur = i;
                },
                None => {
                    // insert new node
                    let idx = self.data.add_item(n);
                    proof {
                        assert(whole.has(cur));
                        assert(old(self).data.in_use(cur));
                    }
                    let node = std::ops::IndexMut::index_mut(&mut self.data, cur);
                    if go_left {
                        node.left = Some(idx);
                    } else {
                        node.right = Some(idx);
                    }
                    proof {
                        let b = self.data.nodes();
                        self.shape@ = whole.grown(item, idx);
                        assert(!whole.has(idx));
                        assert forall|i: usize|
                            #[trigger] whole.has(i) && i != cur implies b[i as int] == a[i as int] by {
                            assert(old(self).data.in_use(i));
                        }
                        whole.lemma_grown(item, idx);
                        whole.lemma_grown_in_order(item, idx);
                        whole.lemma_landing(item);
                        whole.lemma_grown_fits(a, b, item, idx);
                        assert forall|i: usize| #[trigger] self.shape@.has(i) implies self.data.in_use(
                            i,
                        ) by {
                            if i != idx {
                                assert(whole.has(i));
                                assert(old(self).data.in_use(i));
                            }
                        }
                    }
                    return true;
                },
            }
        }
    }
}

/// An in-order walk over a tree that it owns. The walk keeps the ancestors
/// it has yet to visit on a stack of its own, so its depth costs no call
/// stack.
pub struct BinaryTreeIter<T: Copy> {
    /// The node whose subtree is walked next.
    curr_node_idx: Option<usize>,
    /// The ancestors whose value and right subtree are still to come.
    walk_stack: Vec<usize>,
    tree: BinaryTree<T>,
    /// The subtree under the current node.
    below: Ghost<Shape<T>>,
    /// The subtrees under the nodes on the stack.
    waiting: Ghost<Seq<Shape<T>>>,
}

impl<T: Copy> View for BinaryTreeIter<T> {
    type V = Seq<T>;

    /// The values still to come, in the order in which they come.
    closed spec fn view(&self) -> Seq<T> {
        self.below@.values() + pending(self.waiting@)
    }
}

impl<T: Copy> BinaryTreeIter<T> {
    /// The tree that the walk owns.
    pub closed spec fn tree(&self) -> BinaryTree<T> {
        self.tree
    }

    /// The invariant of the walk: the current link and the stack name nodes
    /// of the tree.
    pub closed spec fn wf(&self) -> bool {
        &&& self.below@.fits(self.tree.data.nodes())
        &&& self.below@.link() == self.curr_node_idx
        &&& self.waiting@.len() == self.walk_stack@.len()
        &&& forall|k: int|
            0 <= k < self.waiting@.len() ==> {
                &&& (#[trigger] self.waiting@[k]) is Fork
                &&& self.waiting@[k]->slot == self.walk_stack@[k]
                &&& self.waiting@[k].fits(self.tree.data.nodes())
            }
    }

    /// The next value of the walk, or `None` when all have been given.
    pub fn next(&mut self) -> (r: Option<T>)
        requires
            old(self).wf(),
        ensures
            final(self).wf(),
            final(self).tree() == old(self).tree(),
            old(self)@.len() == 0 ==> r is None && final(self)@ == old(self)@,
            old(self)@.len() > 0 ==> r == Some(old(self)@[0]) && final(self)@ == old(self)@.drop_first(),
    {
        // loop result is the next value in the iterator
        loop
            invariant
                self.wf(),
                self@ == old(self)@,
                self.tree == old(self).tree,
            decreases self.below@.size(),
        {
            let ghost sub = self.below@;
            let ghost stack = self.waiting@;
            // look at the current node
            match self.curr_node_idx {
                Some(curr_idx) => {
                    // check the left branch of the current node
                    match self.tree.data[curr_idx].left {
                        Some(i) => {
                            // descend down the left branch
                            // remember the current node to come back to after walking the left branch
                            self.walk_stack.push(curr_idx);
                            self.curr_node_idx = Some(i);  // current is now the left child
                            proof {
                                self.waiting@ = stack.push(sub);
                                self.below@ = *sub->left;
                                assert(stack.push(sub).drop_last() == stack);
                                assert(pending(stack.push(sub)) == seq![sub->val]
                                    + sub->right.values() + pending(stack));
                                assert(sub.values() + pending(stack) =~= sub->left.values()
                                    + pending(stack.push(sub)));
                            }
                        },
                        None => {
                            // no left branch prep to output current value
                            let val = self.tree.data[curr_idx].val;
                            // see if there is a right branch
                            self.curr_node_idx = self.tree.data[curr_idx].right;
                            proof {
                                self.below@ = *sub->right;
                                assert(*sub->left is Leaf);
                                assert(sub->left.values() =~= Seq::<T>::empty());
                                assert(sub.values() =~= seq![val] + sub->right.values());
                                assert((sub.values() + pending(stack)).drop_first()
                                    =~= sub->right.values() + pending(stack));
                            }
                            return Some(val);  // get the iterator to return the current nodes value
                        },
                    }
                },
                None => {
                    // no current node so check the descent stack
                    proof {
                        assert(sub is Leaf);
                        assert(sub.values() =~= Seq::<T>::empty());
                    }
                    match self.walk_stack.pop() {
                        Some(i) => {
                            // prep to output the current value before trying to descend right branch
                            let ghost top = stack.last();
                            let val = self.tree.data[i].val;
                            self.curr_node_idx = self.tree.data[i].right;
                            proof {
                                self.waiting@ = stack.drop_last();
                                self.below@ = *top->right;
                                assert((sub.values() + pending(stack)).drop_first()
                                    =~= top->right.values() + pending(stack.drop_last()));
                            }
                            return Some(val);
                        },
                        None => {
                            // walked the whole tree
                            proof {
                                assert(pending(stack) =~= Seq::<T>::empty());
                            }
                            return None;
                        },
                    }
                },
            }
        }
    }
}

impl<T: Copy> BinaryTree<T> {
    /// Starts an in-order walk, which takes the tree over.
    pub fn into_iter(self) -> (iter: BinaryTreeIter<T>)
        requires
            self.linked(),
        ensures
            iter.wf(),
            iter@ == self@,
            iter.tree() == self,
    {
        let ghost shape = self.shape@;
        BinaryTreeIter {
            curr_node_idx: self.root,
            walk_stack: Vec::new(),
            tree: self,
            below: Ghost(shape),
            waiting: Ghost(Seq::empty()),
        }
    }
}

} // verus!
