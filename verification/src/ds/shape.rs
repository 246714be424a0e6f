//! The tree that an arena of linked slots stands for.
//!
//! A [`Shape`] is the mathematical tree: which slot sits where, and the value
//! it holds. The arena realises a shape when every slot named in the shape
//! holds that value and links to the slots of its two subtrees. All contracts
//! of the trees are stated over shapes; the lemmas here say how a shape
//! changes under the edits that the trees make to their arena.

use super::b_tree::Node;
use super::order::{
    ascending, lemma_less_asymmetric, lemma_sorted_pos_back, lemma_sorted_pos_front, less, sorted_pos,
    total_order,
};
use vstd::prelude::*;

verus! {

/// A binary tree of arena slots.
pub enum Shape<T> {
    /// The empty tree: what an absent link stands for.
    Leaf,
    /// The node in `slot`, holding `val`, with its two subtrees.
    Fork { left: Box<Shape<T>>, slot: usize, val: T, right: Box<Shape<T>> },
}

/// Inserting into the part before the middle element of a joined sequence.
proof fn lemma_insert_front<A>(l: Seq<A>, m: A, r: Seq<A>, p: int, x: A)
    requires
        0 <= p <= l.len(),
    ensures
        l.insert(p, x).push(m) + r == (l.push(m) + r).insert(p, x),
{
    assert(l.insert(p, x).push(m) + r =~= (l.push(m) + r).insert(p, x));
}

/// Inserting into the part after the middle element of a joined sequence.
proof fn lemma_insert_back<A>(l: Seq<A>, m: A, r: Seq<A>, p: int, x: A)
    requires
        0 <= p <= r.len(),
    ensures
        l.push(m) + r.insert(p, x) == (l.push(m) + r).insert(l.len() + 1 + p, x),
{
    assert(l.push(m) + r.insert(p, x) =~= (l.push(m) + r).insert(l.len() + 1 + p, x));
}

/// Removing from the part before the middle element of a joined sequence.
proof fn lemma_remove_front<A>(l: Seq<A>, m: A, r: Seq<A>, p: int)
    requires
        0 <= p < l.len(),
    ensures
        l.remove(p).push(m) + r == (l.push(m) + r).remove(p),
{
    assert(l.remove(p).push(m) + r =~= (l.push(m) + r).remove(p));
}

/// Removing from the part after the middle element of a joined sequence.
proof fn lemma_remove_back<A>(l: Seq<A>, m: A, r: Seq<A>, p: int)
    requires
        0 <= p < r.len(),
    ensures
        l.push(m) + r.remove(p) == (l.push(m) + r).remove(l.len() + 1 + p),
{
    assert(l.push(m) + r.remove(p) =~= (l.push(m) + r).remove(l.len() + 1 + p));
}

impl<T> Shape<T> {
    /// The link that leads to this tree: the slot of its root, if it has one.
    pub open spec fn link(self) -> Option<usize> {
        match self {
            Shape::Leaf => None,
            Shape::Fork { slot, .. } => Some(slot),
        }
    }

    /// The number of nodes.
    pub open spec fn size(self) -> nat
        decreases self,
    {
        match self {
            Shape::Leaf => 0,
            Shape::Fork { left, right, .. } => left.size() + 1 + right.size(),
        }
    }

    /// Slot `i` is one of the nodes.
    pub open spec fn has(self, i: usize) -> bool
        decreases self,
    {
        match self {
            Shape::Leaf => false,
            Shape::Fork { left, slot, right, .. } => slot == i || left.has(i) || right.has(i),
        }
    }

    /// Some node holds the value `v`.
    pub open spec fn holds(self, v: T) -> bool
        decreases self,
    {
        match self {
            Shape::Leaf => false,
            Shape::Fork { left, val, right, .. } => val == v || left.holds(v) || right.holds(v),
        }
    }

    /// The slots in in-order: left subtree, root, right subtree.
    pub open spec fn slots(self) -> Seq<usize>
        decreases self,
    {
        match self {
            Shape::Leaf => Seq::empty(),
            Shape::Fork { left, slot, right, .. } => left.slots().push(slot) + right.slots(),
        }
    }

    /// The values in in-order.
    pub open spec fn values(self) -> Seq<T>
        decreases self,
    {
        match self {
            Shape::Leaf => Seq::empty(),
            Shape::Fork { left, val, right, .. } => left.values().push(val) + right.values(),
        }
    }

    /// No slot occurs twice: the shape is a tree, not a graph.
    pub open spec fn distinct(self) -> bool
        decreases self,
    {
        match self {
            Shape::Leaf => true,
            Shape::Fork { left, slot, right, .. } => {
                &&& !left.has(slot)
                &&& !right.has(slot)
                &&& forall|i: usize| !(#[trigger] left.has(i) && right.has(i))
                &&& left.distinct()
                &&& right.distinct()
            },
        }
    }

    /// The arena `nodes` realises this shape: each slot of the shape exists,
    /// holds the shape's value and links to the roots of the two subtrees.
    pub open spec fn fits(self, nodes: Seq<Node<T>>) -> bool
        decreases self,
    {
        match self {
            Shape::Leaf => true,
            Shape::Fork { left, slot, val, right } => {
                &&& slot < nodes.len()
                &&& nodes[slot as int].val == val
                &&& nodes[slot as int].left == left.link()
                &&& nodes[slot as int].right == right.link()
                &&& left.fits(nodes)
                &&& right.fits(nodes)
            },
        }
    }

    /// The subtree whose root is slot `i`; the empty tree if there is none.
    pub open spec fn at(self, i: usize) -> Shape<T>
        decreases self,
    {
        match self {
            Shape::Leaf => Shape::Leaf,
            Shape::Fork { left, slot, right, .. } => if slot == i {
                self
            } else if left.has(i) {
                left.at(i)
            } else {
                right.at(i)
            },
        }
    }

    /// The subtree that the link `l` leads to.
    pub open spec fn below(self, l: Option<usize>) -> Shape<T> {
        match l {
            None => Shape::Leaf,
            Some(i) => self.at(i),
        }
    }

    /// The slot whose left or right link leads to slot `i`; `None` for the
    /// root and for a slot that is not in the tree.
    pub open spec fn parent_of(self, i: usize) -> Option<usize>
        decreases self,
    {
        match self {
            Shape::Leaf => None,
            Shape::Fork { left, slot, right, .. } => if left.link() == Some(i) || right.link()
                == Some(i) {
                Some(slot)
            } else if left.has(i) {
                left.parent_of(i)
            } else {
                right.parent_of(i)
            },
        }
    }

    /// The position of slot `i` in in-order.
    pub open spec fn rank(self, i: usize) -> int
        decreases self,
    {
        match self {
            Shape::Leaf => 0,
            Shape::Fork { left, slot, right, .. } => if left.has(i) {
                left.rank(i)
            } else if slot == i {
                left.size() as int
            } else {
                left.size() + 1 + right.rank(i)
            },
        }
    }

    /// The tree without the node in slot `d`, whose one subtree, if it has
    /// any, takes its place. Meant for a node with at most one child.
    pub open spec fn spliced(self, d: usize) -> Shape<T>
        decreases self,
    {
        match self {
            Shape::Leaf => Shape::Leaf,
            Shape::Fork { left, slot, val, right } => if slot == d {
                if *left is Leaf {
                    *right
                } else {
                    *left
                }
            } else if left.has(d) {
                Shape::Fork { left: Box::new(left.spliced(d)), slot, val, right }
            } else {
                Shape::Fork { left, slot, val, right: Box::new(right.spliced(d)) }
            },
        }
    }

    /// The same tree with the value `v` in slot `i`.
    pub open spec fn with_val(self, i: usize, v: T) -> Shape<T>
        decreases self,
    {
        match self {
            Shape::Leaf => Shape::Leaf,
            Shape::Fork { left, slot, val, right } => if slot == i {
                Shape::Fork { left, slot, val: v, right }
            } else if left.has(i) {
                Shape::Fork { left: Box::new(left.with_val(i, v)), slot, val, right }
            } else {
                Shape::Fork { left, slot, val, right: Box::new(right.with_val(i, v)) }
            },
        }
    }

    /// The leftmost slot: the first in in-order.
    pub open spec fn first_slot(self) -> usize
        decreases self,
    {
        match self {
            Shape::Leaf => 0,
            Shape::Fork { left, slot, .. } => if *left is Leaf {
                slot
            } else {
                left.first_slot()
            },
        }
    }

    /// Both subtrees of the root are present.
    pub open spec fn full(self) -> bool {
        self is Fork && *self->left is Fork && *self->right is Fork
    }

    /// A slot of the shape lies inside the arena that realises it.
    pub proof fn lemma_fits_bound(self, nodes: Seq<Node<T>>, i: usize)
        requires
            self.fits(nodes),
            self.has(i),
        ensures
            i < nodes.len(),
        decreases self,
    {
        match self {
            Shape::Leaf => {},
            Shape::Fork { left, slot, right, .. } => {
                if left.has(i) {
                    left.lemma_fits_bound(nodes, i);
                } else if right.has(i) {
                    right.lemma_fits_bound(nodes, i);
                }
            },
        }
    }

    /// An arena that agrees with `a` on every slot of the shape realises the
    /// shape as `a` does.
    pub proof fn lemma_frame(self, a: Seq<Node<T>>, b: Seq<Node<T>>)
        requires
            self.fits(a),
            forall|i: usize| #[trigger] self.has(i) ==> i < b.len() && b[i as int] == a[i as int],
        ensures
            self.fits(b),
        decreases self,
    {
        match self {
            Shape::Leaf => {},
            Shape::Fork { left, slot, right, .. } => {
                assert(self.has(slot));
                assert forall|i: usize| #[trigger] left.has(i) implies i < b.len() && b[i as int]
                    == a[i as int] by {
                    assert(self.has(i));
                }
                assert forall|i: usize| #[trigger] right.has(i) implies i < b.len() && b[i as int]
                    == a[i as int] by {
                    assert(self.has(i));
                }
                left.lemma_frame(a, b);
                right.lemma_frame(a, b);
            },
        }
    }

    /// In-order lists every node once: slots and values are as many as the
    /// nodes, and a slot or value is listed exactly if the tree has it.
    pub proof fn lemma_in_order(self)
        ensures
            self.slots().len() == self.size(),
            self.values().len() == self.size(),
            forall|i: usize| #[trigger] self.has(i) <==> self.slots().contains(i),
            forall|v: T| #[trigger] self.holds(v) <==> self.values().contains(v),
        decreases self,
    {
        match self {
            Shape::Leaf => {},
            Shape::Fork { left, slot, val, right } => {
                left.lemma_in_order();
                right.lemma_in_order();
                let ls = left.slots();
                let rs = right.slots();
                let lv = left.values();
                let rv = right.values();
                assert(self.slots() == ls.push(slot) + rs);
                assert(self.values() == lv.push(val) + rv);
                assert forall|i: usize| #[trigger] self.has(i) <==> self.slots().contains(i) by {
                    assert(left.has(i) <==> ls.contains(i));
                    assert(right.has(i) <==> rs.contains(i));
                    if ls.contains(i) {
                        let k = choose|k: int| 0 <= k < ls.len() && ls[k] == i;
                        assert(self.slots()[k] == i);
                    }
                    if rs.contains(i) {
                        let k = choose|k: int| 0 <= k < rs.len() && rs[k] == i;
                        assert(self.slots()[ls.len() + 1 + k] == i);
                    }
                    if slot == i {
                        assert(self.slots()[ls.len() as int] == i);
                    }
                    if self.slots().contains(i) {
                        let k = choose|k: int| 0 <= k < self.slots().len() && self.slots()[k] == i;
                        if k < ls.len() {
                            assert(ls[k] == i);
                        } else if k > ls.len() {
                            assert(rs[k - ls.len() - 1] == i);
                        }
                    }
                }
                assert forall|v: T| #[trigger] self.holds(v) <==> self.values().contains(v) by {
                    assert(left.holds(v) <==> lv.contains(v));
                    assert(right.holds(v) <==> rv.contains(v));
                    if lv.contains(v) {
                        let k = choose|k: int| 0 <= k < lv.len() && lv[k] == v;
                        assert(self.values()[k] == v);
                    }
                    if rv.contains(v) {
                        let k = choose|k: int| 0 <= k < rv.len() && rv[k] == v;
                        assert(self.values()[lv.len() + 1 + k] == v);
                    }
                    if val == v {
                        assert(self.values()[lv.len() as int] == v);
                    }
                    if self.values().contains(v) {
                        let k = choose|k: int|
                            0 <= k < self.values().len() && self.values()[k] == v;
                        if k < lv.len() {
                            assert(lv[k] == v);
                        } else if k > lv.len() {
                            assert(rv[k - lv.len() - 1] == v);
                        }
                    }
                }
            },
        }
    }

    /// The subtree under a slot of the tree is a part of the tree: it has
    /// that slot as its root and nothing that the tree has not, and it is
    /// realised by the arena that realises the tree.
    pub proof fn lemma_at(self, nodes: Seq<Node<T>>, i: usize)
        requires
            self.has(i),
        ensures
            self.at(i) is Fork,
            self.at(i).link() == Some(i),
            self.fits(nodes) ==> self.at(i).fits(nodes),
            self.distinct() ==> self.at(i).distinct(),
            forall|j: usize| #[trigger] self.at(i).has(j) ==> self.has(j),
            forall|v: T| #[trigger] self.at(i).holds(v) ==> self.holds(v),
        decreases self,
    {
        match self {
            Shape::Leaf => {},
            Shape::Fork { left, slot, right, .. } => {
                if slot == i {
                } else if left.has(i) {
                    left.lemma_at(nodes, i);
                } else {
                    right.lemma_at(nodes, i);
                }
            },
        }
    }

    /// A slot that a node of the tree links to is a node of the tree.
    pub proof fn lemma_child_has(self, nodes: Seq<Node<T>>, p: usize, c: usize)
        requires
            self.fits(nodes),
            self.has(p),
            nodes[p as int].left == Some(c) || nodes[p as int].right == Some(c),
        ensures
            self.has(c),
        decreases self,
    {
        match self {
            Shape::Leaf => {},
            Shape::Fork { left, slot, right, .. } => {
                if slot == p {
                    if nodes[p as int].left == Some(c) {
                        assert(left.has(c));
                    } else {
                        assert(right.has(c));
                    }
                } else if left.has(p) {
                    left.lemma_child_has(nodes, p, c);
                } else {
                    right.lemma_child_has(nodes, p, c);
                }
            },
        }
    }

    /// A slot outside the tree has no parent in it, and a parent is a node
    /// of the tree other than its child.
    pub proof fn lemma_parent_has(self, i: usize)
        requires
            self.distinct(),
        ensures
            !self.has(i) ==> self.parent_of(i) is None,
            self.has(i) && self.link() != Some(i) ==> self.parent_of(i) is Some,
            self.parent_of(i) matches Some(p) ==> self.has(p) && self.has(i) && p != i,
        decreases self,
    {
        match self {
            Shape::Leaf => {},
            Shape::Fork { left, slot, right, .. } => {
                left.lemma_parent_has(i);
                right.lemma_parent_has(i);
                if left.link() == Some(i) {
                    assert(left.has(i));
                }
                if right.link() == Some(i) {
                    assert(right.has(i));
                }
            },
        }
    }

    /// In a tree, the node that links to a slot is that slot's parent, and
    /// no node links to the root.
    pub proof fn lemma_parent_of_child(self, nodes: Seq<Node<T>>, p: usize, c: usize)
        requires
            self.fits(nodes),
            self.distinct(),
            self.has(p),
            nodes[p as int].left == Some(c) || nodes[p as int].right == Some(c),
        ensures
            self.has(c),
            self.parent_of(c) == Some(p),
            self.link() != Some(c),
        decreases self,
    {
        self.lemma_child_has(nodes, p, c);
        match self {
            Shape::Leaf => {},
            Shape::Fork { left, slot, right, .. } => {
                if slot == p {
                    if nodes[p as int].left == Some(c) {
                        assert(left.has(c));
                    } else {
                        assert(right.has(c));
                    }
                } else if left.has(p) {
                    left.lemma_parent_of_child(nodes, p, c);
                    if right.link() == Some(c) {
                        assert(right.has(c));
                    }
                } else {
                    right.lemma_parent_of_child(nodes, p, c);
                    if left.link() == Some(c) {
                        assert(left.has(c));
                    }
                }
            },
        }
    }

    /// The rank of a slot is its position in in-order.
    pub proof fn lemma_rank(self, i: usize)
        requires
            self.has(i),
            self.distinct(),
        ensures
            0 <= self.rank(i) < self.size(),
            self.slots()[self.rank(i)] == i,
            self.values()[self.rank(i)] == self.at(i)->val,
        decreases self,
    {
        self.lemma_in_order();
        match self {
            Shape::Leaf => {},
            Shape::Fork { left, slot, right, .. } => {
                left.lemma_in_order();
                right.lemma_in_order();
                if left.has(i) {
                    left.lemma_rank(i);
                } else if slot == i {
                } else {
                    right.lemma_rank(i);
                }
            },
        }
    }

    /// In a tree, in-order lists no slot twice.
    pub proof fn lemma_slots_distinct(self)
        requires
            self.distinct(),
        ensures
            self.slots().no_duplicates(),
        decreases self,
    {
        match self {
            Shape::Leaf => {},
            Shape::Fork { left, slot, right, .. } => {
                left.lemma_slots_distinct();
                right.lemma_slots_distinct();
                left.lemma_in_order();
                right.lemma_in_order();
                let ls = left.slots();
                let rs = right.slots();
                let s = self.slots();
                let n = ls.len() as int;
                assert forall|x: int, y: int| 0 <= x < s.len() && 0 <= y < s.len() && x != y implies s[x]
                    != s[y] by {
                    assert(s == ls.push(slot) + rs);
                    if x < n {
                        assert(s[x] == ls[x]);
                        assert(ls.contains(ls[x]));
                        assert(left.has(s[x]));
                    } else if x > n {
                        assert(s[x] == rs[x - n - 1]);
                        assert(rs.contains(rs[x - n - 1]));
                        assert(right.has(s[x]));
                    } else {
                        assert(s[x] == slot);
                    }
                    if y < n {
                        assert(s[y] == ls[y]);
                        assert(ls.contains(ls[y]));
                        assert(left.has(s[y]));
                    } else if y > n {
                        assert(s[y] == rs[y - n - 1]);
                        assert(rs.contains(rs[y - n - 1]));
                        assert(right.has(s[y]));
                    } else {
                        assert(s[y] == slot);
                    }
                }
            },
        }
    }

    /// The leftmost slot of a tree that is not empty is a node of it, and
    /// the first in in-order.
    pub proof fn lemma_first(self)
        requires
            self is Fork,
            self.distinct(),
        ensures
            self.has(self.first_slot()),
            self.rank(self.first_slot()) == 0,
        decreases self,
    {
        match self {
            Shape::Leaf => {},
            Shape::Fork { left, slot, right, .. } => {
                if *left is Leaf {
                    assert(left.size() == 0);
                    assert(!left.has(slot));
                } else {
                    left.lemma_first();
                }
            },
        }
    }

    /// In in-order, the node that follows a node with a right subtree is the
    /// leftmost node of that subtree.
    pub proof fn lemma_successor(self, i: usize)
        requires
            self.has(i),
            self.distinct(),
            *self.at(i)->right is Fork,
        ensures
            self.has(self.at(i)->right.first_slot()),
            self.rank(self.at(i)->right.first_slot()) == self.rank(i) + 1,
        decreases self,
    {
        let f = self.at(i)->right.first_slot();
        match self {
            Shape::Leaf => {},
            Shape::Fork { left, slot, right, .. } => {
                if slot == i {
                    right.lemma_first();
                    assert(right.has(f));
                    assert(!left.has(f));
                } else if left.has(i) {
                    left.lemma_successor(i);
                } else {
                    right.lemma_successor(i);
                    assert(right.has(f));
                    assert(!left.has(f));
                }
            },
        }
    }

    /// Splicing out a node with at most one child removes that slot from the
    /// tree and leaves the rest a tree.
    pub proof fn lemma_spliced(self, d: usize)
        requires
            self.distinct(),
            self.has(d),
            !self.at(d).full(),
        ensures
            forall|i: usize| #[trigger] self.spliced(d).has(i) <==> self.has(i) && i != d,
            self.spliced(d).distinct(),
            self.spliced(d).size() == self.size() - 1,
            self.link() != Some(d) ==> self.spliced(d).link() == self.link(),
            self.link() == Some(d) ==> self.spliced(d) == (if *self->left is Leaf {
                *self->right
            } else {
                *self->left
            }),
        decreases self,
    {
        let g = self.spliced(d);
        match self {
            Shape::Leaf => {},
            Shape::Fork { left, slot, val, right } => {
                if slot == d {
                    if *left is Leaf {
                        assert(g == *right);
                        assert(left.size() == 0);
                        assert forall|i: usize| #[trigger] g.has(i) <==> self.has(i) && i != d by {
                            assert(!left.has(i));
                        }
                    } else {
                        assert(*right is Leaf);
                        assert(g == *left);
                        assert(right.size() == 0);
                        assert forall|i: usize| #[trigger] g.has(i) <==> self.has(i) && i != d by {
                            assert(!right.has(i));
                        }
                    }
                } else if left.has(d) {
                    left.lemma_spliced(d);
                    let gl = left.spliced(d);
                    assert(g == Shape::Fork { left: Box::new(gl), slot, val, right });
                    assert forall|i: usize| #[trigger] g.has(i) <==> self.has(i) && i != d by {
                        assert(gl.has(i) <==> left.has(i) && i != d);
                    }
                    assert forall|i: usize| !(#[trigger] gl.has(i) && right.has(i)) by {
                        if gl.has(i) && right.has(i) {
                            assert(left.has(i));
                        }
                    }
                    assert(!gl.has(slot));
                } else {
                    right.lemma_spliced(d);
                    let gr = right.spliced(d);
                    assert(g == Shape::Fork { left, slot, val, right: Box::new(gr) });
                    assert forall|i: usize| #[trigger] g.has(i) <==> self.has(i) && i != d by {
                        assert(gr.has(i) <==> right.has(i) && i != d);
                    }
                    assert forall|i: usize| !(#[trigger] left.has(i) && gr.has(i)) by {
                        if left.has(i) && gr.has(i) {
                            assert(right.has(i));
                        }
                    }
                    assert(!gr.has(slot));
                }
            },
        }
    }

    /// Splicing out a node with at most one child takes its slot, and its
    /// value, out of in-order at the rank of the slot.
    pub proof fn lemma_spliced_in_order(self, d: usize)
        requires
            self.distinct(),
            self.has(d),
            !self.at(d).full(),
        ensures
            self.spliced(d).slots() == self.slots().remove(self.rank(d)),
            self.spliced(d).values() == self.values().remove(self.rank(d)),
        decreases self,
    {
        let g = self.spliced(d);
        match self {
            Shape::Leaf => {},
            Shape::Fork { left, slot, val, right } => {
                left.lemma_in_order();
                right.lemma_in_order();
                let ls = left.slots();
                let rs = right.slots();
                let lv = left.values();
                let rv = right.values();
                if slot == d {
                    if *left is Leaf {
                        assert(g == *right);
                        assert(self.slots().remove(0) =~= rs);
                        assert(self.values().remove(0) =~= rv);
                    } else {
                        assert(*right is Leaf);
                        assert(g == *left);
                        assert(self.slots().remove(ls.len() as int) =~= ls);
                        assert(self.values().remove(lv.len() as int) =~= lv);
                    }
                } else if left.has(d) {
                    left.lemma_spliced_in_order(d);
                    left.lemma_rank(d);
                    let gl = left.spliced(d);
                    let r = left.rank(d);
                    assert(g == Shape::Fork { left: Box::new(gl), slot, val, right });
                    lemma_remove_front(ls, slot, rs, r);
                    lemma_remove_front(lv, val, rv, r);
                } else {
                    right.lemma_spliced_in_order(d);
                    right.lemma_rank(d);
                    let gr = right.spliced(d);
                    let r = right.rank(d);
                    assert(g == Shape::Fork { left, slot, val, right: Box::new(gr) });
                    lemma_remove_back(ls, slot, rs, r);
                    lemma_remove_back(lv, val, rv, r);
                }
            },
        }
    }

    /// The arena after a splice realises the spliced tree: the parent of the
    /// removed slot `d` links to the one subtree of `d` in its place, and no
    /// other node changed.
    pub proof fn lemma_spliced_fits(self, a: Seq<Node<T>>, b: Seq<Node<T>>, d: usize)
        requires
            self.fits(a),
            self.distinct(),
            self.has(d),
            !self.at(d).full(),
            self.link() != Some(d),
            b.len() == a.len(),
            self.parent_of(d) matches Some(p) && {
                &&& p < a.len()
                &&& b[p as int].val == a[p as int].val
                &&& a[p as int].left == Some(d) ==> b[p as int].left == self.at(d).spliced(d).link()
                    && b[p as int].right == a[p as int].right
                &&& a[p as int].left != Some(d) ==> b[p as int].right == self.at(d).spliced(
                    d,
                ).link() && b[p as int].left == a[p as int].left
                &&& forall|i: usize|
                    #[trigger] self.has(i) && i != p && i != d ==> b[i as int] == a[i as int]
            },
        ensures
            self.spliced(d).fits(b),
        decreases self,
    {
        let p = self.parent_of(d)->0;
        let g = self.spliced(d);
        self.lemma_parent_has(d);
        match self {
            Shape::Leaf => {},
            Shape::Fork { left, slot, val, right } => {
                left.lemma_parent_has(d);
                right.lemma_parent_has(d);
                if left.has(d) {
                    let gl = left.spliced(d);
                    assert(g == Shape::Fork { left: Box::new(gl), slot, val, right });
                    assert(!right.has(d));
                    assert(right.link() != Some(d)) by {
                        if right.link() == Some(d) {
                            assert(right.has(d));
                        }
                    }
                    left.lemma_at(a, d);
                    left.lemma_spliced(d);
                    assert(self.at(d) == left.at(d));
                    if left.link() == Some(d) {
                        assert(p == slot);
                        assert(left.at(d) == *left);
                        assert forall|i: usize| #[trigger] gl.has(i) implies i < b.len() && b[i as int]
                            == a[i as int] by {
                            assert(left.has(i) && i != d);
                            assert(self.has(i));
                            left.lemma_fits_bound(a, i);
                        }
                        assert(gl.fits(a));
                        gl.lemma_frame(a, b);
                    } else {
                        assert(left.parent_of(d) == Some(p));
                        assert(left.has(p));
                        assert forall|i: usize|
                            #[trigger] left.has(i) && i != p && i != d implies b[i as int]
                            == a[i as int] by {
                            assert(self.has(i));
                        }
                        left.lemma_spliced_fits(a, b, d);
                        assert(self.has(slot));
                    }
                    assert forall|i: usize| #[trigger] right.has(i) implies i < b.len() && b[i as int]
                        == a[i as int] by {
                        assert(self.has(i));
                        right.lemma_fits_bound(a, i);
                    }
                    right.lemma_frame(a, b);
                } else {
                    assert(right.has(d));
                    let gr = right.spliced(d);
                    assert(g == Shape::Fork { left, slot, val, right: Box::new(gr) });
                    assert(left.link() != Some(d)) by {
                        if left.link() == Some(d) {
                            assert(left.has(d));
                        }
                    }
                    right.lemma_at(a, d);
                    right.lemma_spliced(d);
                    assert(self.at(d) == right.at(d));
                    if right.link() == Some(d) {
                        assert(p == slot);
                        assert(right.at(d) == *right);
                        assert forall|i: usize| #[trigger] gr.has(i) implies i < b.len() && b[i as int]
                            == a[i as int] by {
                            assert(right.has(i) && i != d);
                            assert(self.has(i));
                            right.lemma_fits_bound(a, i);
                        }
                        assert(gr.fits(a));
                        gr.lemma_frame(a, b);
                    } else {
                        assert(right.parent_of(d) == Some(p));
                        assert(right.has(p));
                        assert forall|i: usize|
                            #[trigger] right.has(i) && i != p && i != d implies b[i as int]
                            == a[i as int] by {
                            assert(self.has(i));
                        }
                        right.lemma_spliced_fits(a, b, d);
                        assert(self.has(slot));
                    }
                    assert forall|i: usize| #[trigger] left.has(i) implies i < b.len() && b[i as int]
                        == a[i as int] by {
                        assert(self.has(i));
                        left.lemma_fits_bound(a, i);
                    }
                    left.lemma_frame(a, b);
                }
            },
        }
    }

    /// Writing another value into a slot changes that one value of the
    /// model, at the slot's rank, and nothing of its form.
    pub proof fn lemma_with_val(self, a: Seq<Node<T>>, b: Seq<Node<T>>, i: usize, v: T)
        requires
            self.fits(a),
            self.distinct(),
            self.has(i),
            b.len() == a.len(),
            b[i as int] == (Node { val: v, left: a[i as int].left, right: a[i as int].right }),
            forall|j: usize| #[trigger] self.has(j) && j != i ==> b[j as int] == a[j as int],
        ensures
            self.with_val(i, v).fits(b),
            self.with_val(i, v).distinct(),
            self.with_val(i, v).link() == self.link(),
            self.with_val(i, v).size() == self.size(),
            self.with_val(i, v).slots() == self.slots(),
            self.with_val(i, v).values() == self.values().update(self.rank(i), v),
            forall|j: usize| #[trigger] self.with_val(i, v).has(j) <==> self.has(j),
            forall|j: usize| #[trigger] self.with_val(i, v).rank(j) == self.rank(j),
        decreases self,
    {
        let g = self.with_val(i, v);
        self.lemma_in_order();
        match self {
            Shape::Leaf => {},
            Shape::Fork { left, slot, val, right } => {
                left.lemma_in_order();
                right.lemma_in_order();
                assert(self.has(slot));
                if slot == i {
                    assert(g == Shape::Fork { left, slot, val: v, right });
                    assert forall|j: usize| #[trigger] left.has(j) implies j < b.len() && b[j as int]
                        == a[j as int] by {
                        assert(self.has(j));
                        left.lemma_fits_bound(a, j);
                    }
                    assert forall|j: usize| #[trigger] right.has(j) implies j < b.len() && b[j as int]
                        == a[j as int] by {
                        assert(self.has(j));
                        right.lemma_fits_bound(a, j);
                    }
                    left.lemma_frame(a, b);
                    right.lemma_frame(a, b);
                    assert(g.values() =~= self.values().update(left.size() as int, v));
                } else if left.has(i) {
                    let gl = left.with_val(i, v);
                    assert(g == Shape::Fork { left: Box::new(gl), slot, val, right });
                    assert forall|j: usize| #[trigger] left.has(j) && j != i implies b[j as int]
                        == a[j as int] by {
                        assert(self.has(j));
                    }
                    assert forall|j: usize| #[trigger] right.has(j) implies j < b.len() && b[j as int]
                        == a[j as int] by {
                        assert(self.has(j));
                        right.lemma_fits_bound(a, j);
                    }
                    left.lemma_with_val(a, b, i, v);
                    left.lemma_rank(i);
                    right.lemma_frame(a, b);
                    assert(g.values() =~= self.values().update(left.rank(i), v));
                    assert forall|j: usize| #[trigger] g.has(j) <==> self.has(j) by {
                        assert(gl.has(j) <==> left.has(j));
                    }
                    assert forall|j: usize| #[trigger] g.rank(j) == self.rank(j) by {
                        assert(gl.has(j) <==> left.has(j));
                        assert(gl.rank(j) == left.rank(j));
                    }
                    assert forall|j: usize| !(#[trigger] gl.has(j) && right.has(j)) by {
                        assert(gl.has(j) <==> left.has(j));
                    }
                } else {
                    let gr = right.with_val(i, v);
                    assert(g == Shape::Fork { left, slot, val, right: Box::new(gr) });
                    assert forall|j: usize| #[trigger] right.has(j) && j != i implies b[j as int]
                        == a[j as int] by {
                        assert(self.has(j));
                    }
                    assert forall|j: usize| #[trigger] left.has(j) implies j < b.len() && b[j as int]
                        == a[j as int] by {
                        assert(self.has(j));
                        left.lemma_fits_bound(a, j);
                    }
                    right.lemma_with_val(a, b, i, v);
                    right.lemma_rank(i);
                    left.lemma_frame(a, b);
                    assert(g.values() =~= self.values().update(left.size() + 1 + right.rank(i), v));
                    assert forall|j: usize| #[trigger] g.has(j) <==> self.has(j) by {
                        assert(gr.has(j) <==> right.has(j));
                    }
                    assert forall|j: usize| #[trigger] g.rank(j) == self.rank(j) by {
                        assert(gr.has(j) <==> right.has(j));
                        assert(gr.rank(j) == right.rank(j));
                    }
                    assert forall|j: usize| !(#[trigger] left.has(j) && gr.has(j)) by {
                        assert(gr.has(j) <==> right.has(j));
                    }
                }
            },
        }
    }
}

impl<T: PartialOrd> Shape<T> {
    /// The search-tree order: at every node, each value of the left subtree
    /// sorts strictly before the node's value, and each value of the right
    /// subtree strictly after it.
    pub open spec fn ordered(self) -> bool
        decreases self,
    {
        match self {
            Shape::Leaf => true,
            Shape::Fork { left, val, right, .. } => {
                &&& forall|x: T| #[trigger] left.holds(x) ==> less(x, val)
                &&& forall|x: T| #[trigger] right.holds(x) ==> less(val, x)
                &&& left.ordered()
                &&& right.ordered()
            },
        }
    }

    /// The subtree under a slot of an ordered tree is ordered.
    pub proof fn lemma_at_ordered(self, i: usize)
        requires
            self.ordered(),
        ensures
            self.at(i).ordered(),
        decreases self,
    {
        match self {
            Shape::Leaf => {},
            Shape::Fork { left, slot, right, .. } => {
                if slot == i {
                } else if left.has(i) {
                    left.lemma_at_ordered(i);
                } else {
                    right.lemma_at_ordered(i);
                }
            },
        }
    }

    /// A tree is in search-tree order exactly if its in-order values ascend
    /// strictly.
    pub proof fn lemma_ordered_ascending(self)
        requires
            total_order::<T>(),
        ensures
            self.ordered() <==> ascending(self.values()),
        decreases self,
    {
        match self {
            Shape::Leaf => {},
            Shape::Fork { left, slot, val, right } => {
                left.lemma_ordered_ascending();
                right.lemma_ordered_ascending();
                left.lemma_in_order();
                right.lemma_in_order();
                let lv = left.values();
                let rv = right.values();
                let s = self.values();
                let n = lv.len() as int;
                assert(s == lv.push(val) + rv);
                if self.ordered() {
                    assert forall|i: int, j: int| 0 <= i < j < s.len() implies less(
                        #[trigger] s[i],
                        #[trigger] s[j],
                    ) by {
                        if i < n {
                            assert(lv.contains(lv[i]));
                            assert(left.holds(s[i]));
                        } else if i > n {
                            assert(rv.contains(rv[i - n - 1]));
                        }
                        if j < n {
                            assert(lv.contains(lv[j]));
                        } else if j > n {
                            assert(rv.contains(rv[j - n - 1]));
                            assert(right.holds(s[j]));
                        }
                        if i < n && j > n {
                            assert(less(s[i], val) && less(val, s[j]));
                        }
                    }
                }
                if ascending(s) {
                    assert forall|i: int, j: int| 0 <= i < j < lv.len() implies less(
                        #[trigger] lv[i],
                        #[trigger] lv[j],
                    ) by {
                        assert(lv[i] == s[i] && lv[j] == s[j]);
                    }
                    assert forall|i: int, j: int| 0 <= i < j < rv.len() implies less(
                        #[trigger] rv[i],
                        #[trigger] rv[j],
                    ) by {
                        assert(rv[i] == s[n + 1 + i] && rv[j] == s[n + 1 + j]);
                    }
                    assert forall|x: T| #[trigger] left.holds(x) implies less(x, val) by {
                        let k = choose|k: int| 0 <= k < lv.len() && lv[k] == x;
                        assert(s[k] == x && s[n] == val);
                    }
                    assert forall|x: T| #[trigger] right.holds(x) implies less(val, x) by {
                        let k = choose|k: int| 0 <= k < rv.len() && rv[k] == x;
                        assert(s[n + 1 + k] == x && s[n] == val);
                    }
                }
            },
        }
    }

    /// The tree after the value `v` is hung in the new slot `k` at the place
    /// where the search for `v` runs out of tree.
    pub open spec fn grown(self, v: T, k: usize) -> Shape<T>
        decreases self,
    {
        match self {
            Shape::Leaf => Shape::Fork {
                left: Box::new(Shape::Leaf),
                slot: k,
                val: v,
                right: Box::new(Shape::Leaf),
            },
            Shape::Fork { left, slot, val, right } => if less(v, val) {
                Shape::Fork { left: Box::new(left.grown(v, k)), slot, val, right }
            } else {
                Shape::Fork { left, slot, val, right: Box::new(right.grown(v, k)) }
            },
        }
    }

    /// The position at which `v` enters the in-order values.
    pub open spec fn landing(self, v: T) -> int
        decreases self,
    {
        match self {
            Shape::Leaf => 0,
            Shape::Fork { left, val, right, .. } => if less(v, val) {
                left.landing(v)
            } else {
                left.size() + 1 + right.landing(v)
            },
        }
    }

    /// The slot under which the search for `v` runs out of tree: the parent
    /// that a node for `v` gets. Meant for a tree that is not empty.
    pub open spec fn attach(self, v: T) -> usize
        decreases self,
    {
        match self {
            Shape::Leaf => 0,
            Shape::Fork { left, slot, val, right } => if less(v, val) {
                if *left is Leaf {
                    slot
                } else {
                    left.attach(v)
                }
            } else {
                if *right is Leaf {
                    slot
                } else {
                    right.attach(v)
                }
            },
        }
    }

    /// Growing a tree by one value adds one slot and one value, and keeps
    /// distinctness and order.
    pub proof fn lemma_grown(self, v: T, k: usize)
        requires
            total_order::<T>(),
            self.ordered(),
            self.distinct(),
            !self.has(k),
            !self.holds(v),
        ensures
            forall|i: usize| #[trigger] self.grown(v, k).has(i) <==> self.has(i) || i == k,
            forall|x: T| #[trigger] self.grown(v, k).holds(x) <==> self.holds(x) || x == v,
            self.grown(v, k).distinct(),
            self.grown(v, k).ordered(),
            self.grown(v, k).size() == self.size() + 1,
            self.grown(v, k).link() == (if self is Leaf {
                Some(k)
            } else {
                self.link()
            }),
        decreases self,
    {
        let g = self.grown(v, k);
        match self {
            Shape::Leaf => {
                assert(g.size() == Shape::<T>::Leaf.size() + 1 + Shape::<T>::Leaf.size());
                assert forall|i: usize| #[trigger] g.has(i) <==> i == k by {
                    assert(!Shape::<T>::Leaf.has(i));
                }
                assert forall|x: T| #[trigger] g.holds(x) <==> x == v by {
                    assert(!Shape::<T>::Leaf.holds(x));
                }
                assert(Shape::<T>::Leaf.distinct());
                assert(Shape::<T>::Leaf.ordered());
            },
            Shape::Fork { left, slot, val, right } => {
                if less(v, val) {
                    left.lemma_grown(v, k);
                    let gl = left.grown(v, k);
                    assert(g == Shape::Fork { left: Box::new(gl), slot, val, right });
                    assert forall|i: usize| !(#[trigger] gl.has(i) && right.has(i)) by {
                        if gl.has(i) && right.has(i) {
                            assert(left.has(i));
                        }
                    }
                    assert forall|i: usize| #[trigger] g.has(i) <==> self.has(i) || i == k by {
                        assert(gl.has(i) <==> left.has(i) || i == k);
                    }
                    assert forall|x: T| #[trigger] g.holds(x) <==> self.holds(x) || x == v by {
                        assert(gl.holds(x) <==> left.holds(x) || x == v);
                    }
                } else {
                    right.lemma_grown(v, k);
                    assert(less(val, v));
                    let gr = right.grown(v, k);
                    assert(g == Shape::Fork { left, slot, val, right: Box::new(gr) });
                    assert forall|i: usize| !(#[trigger] left.has(i) && gr.has(i)) by {
                        if left.has(i) && gr.has(i) {
                            assert(right.has(i));
                        }
                    }
                    assert forall|i: usize| #[trigger] g.has(i) <==> self.has(i) || i == k by {
                        assert(gr.has(i) <==> right.has(i) || i == k);
                    }
                    assert forall|x: T| #[trigger] g.holds(x) <==> self.holds(x) || x == v by {
                        assert(gr.holds(x) <==> right.holds(x) || x == v);
                    }
                }
            },
        }
    }

    /// Growing a tree by one value inserts the value, and its slot, at the
    /// value's landing position in in-order.
    pub proof fn lemma_grown_in_order(self, v: T, k: usize)
        ensures
            0 <= self.landing(v) <= self.size(),
            self.grown(v, k).values() == self.values().insert(self.landing(v), v),
            self.grown(v, k).slots() == self.slots().insert(self.landing(v), k),
        decreases self,
    {
        let g = self.grown(v, k);
        match self {
            Shape::Leaf => {
                let e = Shape::<T>::Leaf;
                assert(g.values() == e.values().push(v) + e.values());
                assert(g.slots() == e.slots().push(k) + e.slots());
                assert(g.values() == self.values().insert(0, v));
                assert(g.slots() == self.slots().insert(0, k));
            },
            Shape::Fork { left, slot, val, right } => {
                self.lemma_in_order();
                left.lemma_in_order();
                right.lemma_in_order();
                if less(v, val) {
                    left.lemma_grown_in_order(v, k);
                    let p = left.landing(v);
                    let gl = left.grown(v, k);
                    assert(g == Shape::Fork { left: Box::new(gl), slot, val, right });
                    lemma_insert_front(left.values(), val, right.values(), p, v);
                    lemma_insert_front(left.slots(), slot, right.slots(), p, k);
                } else {
                    right.lemma_grown_in_order(v, k);
                    let p = right.landing(v);
                    let gr = right.grown(v, k);
                    assert(g == Shape::Fork { left, slot, val, right: Box::new(gr) });
                    lemma_insert_back(left.values(), val, right.values(), p, v);
                    lemma_insert_back(left.slots(), slot, right.slots(), p, k);
                }
            },
        }
    }

    /// In an ordered tree, a value that the tree does not hold lands at its
    /// sorted position among the in-order values.
    pub proof fn lemma_landing(self, v: T)
        requires
            total_order::<T>(),
            self.ordered(),
            !self.holds(v),
        ensures
            self.landing(v) == sorted_pos(self.values(), v),
        decreases self,
    {
        match self {
            Shape::Leaf => {},
            Shape::Fork { left, slot, val, right } => {
                left.lemma_in_order();
                right.lemma_in_order();
                let lv = left.values();
                let rv = right.values();
                if less(v, val) {
                    left.lemma_landing(v);
                    lemma_less_asymmetric(v, val);
                    let tail = seq![val] + rv;
                    assert forall|j: int| 0 <= j < tail.len() implies !less(#[trigger] tail[j], v) by {
                        if j > 0 {
                            assert(rv.contains(rv[j - 1]));
                            assert(right.holds(tail[j]));
                            assert(less(val, tail[j]));
                            if less(tail[j], v) {
                                assert(less(tail[j], val));
                                lemma_less_asymmetric(val, tail[j]);
                            }
                        }
                    }
                    assert(lv.push(val) + rv == lv + tail);
                    lemma_sorted_pos_front(lv, tail, v);
                } else {
                    right.lemma_landing(v);
                    assert(less(val, v));
                    lemma_sorted_pos_back(lv.push(val), rv, v);
                }
            },
        }
    }

    /// The slot under which a value is hung is a node of the tree.
    pub proof fn lemma_attach_has(self, v: T)
        requires
            self is Fork,
        ensures
            self.has(self.attach(v)),
        decreases self,
    {
        match self {
            Shape::Leaf => {},
            Shape::Fork { left, slot, val, right } => {
                if less(v, val) {
                    if !(*left is Leaf) {
                        left.lemma_attach_has(v);
                    }
                } else {
                    if !(*right is Leaf) {
                        right.lemma_attach_has(v);
                    }
                }
            },
        }
    }

    /// The arena after an insertion realises the grown tree: slot `k` holds
    /// a fresh node for `v`, the slot under which it is hung links to `k` on
    /// the side on which `v` sorts, and no other slot of the tree changed.
    pub proof fn lemma_grown_fits(self, a: Seq<Node<T>>, b: Seq<Node<T>>, v: T, k: usize)
        requires
            self.fits(a),
            self.distinct(),
            !self.has(k),
            k < b.len(),
            b[k as int] == (Node { val: v, left: None, right: None }),
            a.len() <= b.len(),
            forall|i: usize|
                #[trigger] self.has(i) && i != self.attach(v) ==> b[i as int] == a[i as int],
            self is Fork ==> {
                let p = self.attach(v) as int;
                &&& p < a.len()
                &&& b[p].val == a[p].val
                &&& less(v, a[p].val) ==> b[p].left == Some(k) && b[p].right == a[p].right
                &&& !less(v, a[p].val) ==> b[p].right == Some(k) && b[p].left == a[p].left
            },
        ensures
            self.grown(v, k).fits(b),
        decreases self,
    {
        let fresh = Shape::Fork {
            left: Box::new(Shape::<T>::Leaf),
            slot: k,
            val: v,
            right: Box::new(Shape::<T>::Leaf),
        };
        assert(Shape::<T>::Leaf.fits(b));
        assert(fresh.fits(b));
        assert(Shape::<T>::Leaf.grown(v, k) == fresh);
        match self {
            Shape::Leaf => {},
            Shape::Fork { left, slot, val, right } => {
                let p = self.attach(v);
                let g = self.grown(v, k);
                self.lemma_attach_has(v);
                assert(self.has(slot));
                if less(v, val) {
                    let gl = left.grown(v, k);
                    assert(g == Shape::Fork { left: Box::new(gl), slot, val, right });
                    if !(*left is Leaf) {
                        left.lemma_attach_has(v);
                    }
                    assert forall|i: usize| #[trigger] right.has(i) implies i < b.len() && b[i as int]
                        == a[i as int] by {
                        assert(self.has(i));
                        right.lemma_fits_bound(a, i);
                    }
                    right.lemma_frame(a, b);
                    if *left is Leaf {
                        assert(gl == fresh);
                    } else {
                        assert forall|i: usize|
                            #[trigger] left.has(i) && i != left.attach(v) implies b[i as int]
                            == a[i as int] by {
                            assert(self.has(i));
                        }
                        left.lemma_fits_bound(a, left.attach(v));
                        left.lemma_grown_fits(a, b, v, k);
                    }
                    assert(gl.fits(b));
                    assert(gl.link() == b[slot as int].left);
                } else {
                    let gr = right.grown(v, k);
                    assert(g == Shape::Fork { left, slot, val, right: Box::new(gr) });
                    if !(*right is Leaf) {
                        right.lemma_attach_has(v);
                    }
                    assert forall|i: usize| #[trigger] left.has(i) implies i < b.len() && b[i as int]
                        == a[i as int] by {
                        assert(self.has(i));
                        left.lemma_fits_bound(a, i);
                    }
                    left.lemma_frame(a, b);
                    if *right is Leaf {
                        assert(gr == fresh);
                    } else {
                        assert forall|i: usize|
                            #[trigger] right.has(i) && i != right.attach(v) implies b[i as int]
                            == a[i as int] by {
                            assert(self.has(i));
                        }
                        right.lemma_fits_bound(a, right.attach(v));
                        right.lemma_grown_fits(a, b, v, k);
                    }
                    assert(gr.fits(b));
                    assert(gr.link() == b[slot as int].right);
                }
            },
        }
    }
}

} // verus!
