//! Containers that keep their nodes in one growable arena and link them by
//! slot index instead of by pointer, and the message plumbing of a small
//! worker pool.

pub mod broadcast;
pub mod ds;
pub mod eg;
pub mod single;
pub mod worker;
