//! What the arena asks of a node: that its value can be read and replaced.

use vstd::prelude::*;

verus! {

/// A node of a container: it carries one value, next to whatever links the
/// container keeps in it.
pub trait NodeData {
    /// The type of the value.
    type TVal;

    /// The value of the node.
    fn get_val(&self) -> Self::TVal;

    /// Replaces the value of the node.
    fn set_val(&mut self, new_val: Self::TVal);
}

} // verus!
