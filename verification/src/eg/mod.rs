//! Two bare containers that show the arena at work: nodes go in and out,
//! and nothing else is done with them.

pub mod binarytree;
pub mod linkedlist;
