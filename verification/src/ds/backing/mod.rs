//! The slot allocator that the containers share, and what it asks of a node.

pub mod list;
pub mod node;
