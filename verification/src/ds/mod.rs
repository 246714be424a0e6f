//! The arena-backed data structures and the models their contracts speak of.

pub mod b_tree;
pub mod backing;
pub mod binary_tree;
pub mod chain;
pub mod linked_list;
pub mod order;
pub mod shape;
pub mod sl_list;
