//! Data structures built around a runtime-checked borrow state machine:
//! single-owner cells whose borrows may outlive the owning handle, and a
//! tree whose nodes can be borrowed independently of one another.

pub mod list;
pub mod object_tree;
pub mod stable;
pub mod stable_cell;
