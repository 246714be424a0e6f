//! What the trees ask of the values they store: a strict total order.

use core::cmp::Ordering;
use vstd::prelude::*;
use vstd::std_specs::cmp::{PartialEqSpec, PartialOrdSpec};

verus! {

/// `a` sorts strictly before `b`.
pub open spec fn less<T: PartialOrd>(a: T, b: T) -> bool {
    a.partial_cmp_spec(&b) == Some(Ordering::Less)
}

/// The operators `==` and `<` of `T` do what their specifications say, `==`
/// is equality of values, and `<` is a strict total order.
pub open spec fn total_order<T: PartialOrd>() -> bool {
    &&& T::obeys_eq_spec()
    &&& T::obeys_partial_cmp_spec()
    &&& forall|a: T, b: T| #[trigger] a.eq_spec(&b) <==> a == b
    &&& forall|a: T| !#[trigger] less(a, a)
    &&& forall|a: T, b: T| #![trigger less(a, b)] a == b || less(a, b) || less(b, a)
    &&& forall|a: T, b: T, c: T|
        #![trigger less(a, b), less(b, c)]
        less(a, b) && less(b, c) ==> less(a, c)
}

/// Every element of `s` sorts strictly before the one that follows it.
pub open spec fn ascending<T: PartialOrd>(s: Seq<T>) -> bool {
    forall|i: int, j: int| 0 <= i < j < s.len() ==> less(#[trigger] s[i], #[trigger] s[j])
}

/// The position that `v` takes among the ascending values `s`: behind the
/// last of them that sorts before `v`.
pub open spec fn sorted_pos<T: PartialOrd>(s: Seq<T>, v: T) -> int
    decreases s.len(),
{
    if s.len() == 0 {
        0
    } else if less(s.last(), v) {
        s.len() as int
    } else {
        sorted_pos(s.drop_last(), v)
    }
}

/// The position of a value lies within the sequence or right behind it.
pub proof fn lemma_sorted_pos_bounds<T: PartialOrd>(s: Seq<T>, v: T)
    ensures
        0 <= sorted_pos(s, v) <= s.len(),
    decreases s.len(),
{
    if s.len() > 0 && !less(s.last(), v) {
        lemma_sorted_pos_bounds(s.drop_last(), v);
    }
}

/// Values that do not sort before `v` at the end of a sequence do not move
/// the position of `v`.
pub proof fn lemma_sorted_pos_front<T: PartialOrd>(l: Seq<T>, r: Seq<T>, v: T)
    requires
        forall|j: int| 0 <= j < r.len() ==> !less(#[trigger] r[j], v),
    ensures
        sorted_pos(l + r, v) == sorted_pos(l, v),
    decreases r.len(),
{
    if r.len() == 0 {
    } else {
        assert((l + r).drop_last() == l + r.drop_last());
        lemma_sorted_pos_front(l, r.drop_last(), v);
    }
}

/// Behind a value that sorts before `v`, the position of `v` is counted
/// from there.
pub proof fn lemma_sorted_pos_back<T: PartialOrd>(l: Seq<T>, r: Seq<T>, v: T)
    requires
        l.len() > 0,
        less(l.last(), v),
    ensures
        sorted_pos(l + r, v) == l.len() + sorted_pos(r, v),
    decreases r.len(),
{
    if r.len() == 0 {
    } else {
        assert((l + r).drop_last() == l + r.drop_last());
        lemma_sorted_pos_back(l, r.drop_last(), v);
    }
}

/// No value sorts before itself, so two values of which one sorts before
/// the other differ, and never both ways round.
pub proof fn lemma_less_asymmetric<T: PartialOrd>(a: T, b: T)
    requires
        total_order::<T>(),
        less(a, b),
    ensures
        a != b,
        !less(b, a),
{
}

/// Ascending values are all different: a value stands at one position only.
pub proof fn lemma_ascending_index<T: PartialOrd>(s: Seq<T>, k: int)
    requires
        total_order::<T>(),
        ascending(s),
        0 <= k < s.len(),
    ensures
        s.contains(s[k]),
        s.index_of(s[k]) == k,
{
}

/// What is left of ascending values after one of them is taken out ascends.
pub proof fn lemma_ascending_remove<T: PartialOrd>(s: Seq<T>, k: int)
    requires
        ascending(s),
        0 <= k < s.len(),
    ensures
        ascending(s.remove(k)),
{
}

} // verus!
