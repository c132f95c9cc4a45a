//! An unbalanced binary search tree of unique, totally ordered values.
//!
//! The tree stores each value at most once, supports insertion, membership
//! testing and deletion (including nodes with two children, which are
//! replaced by their in-order predecessor), and offers a level-order
//! traversal over a snapshot of the values.
//!
//! Nodes own their children, and every node carries a direction tag naming
//! the child slot of its parent it occupies, so that structural edits
//! (attach, detach, replace, promote) keep the parent/child relation
//! consistent in both directions.

pub mod node;
pub mod tree;
