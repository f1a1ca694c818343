//! Single-owner cells with runtime-checked borrows that may outlive the
//! owning handle.

pub mod cell;
pub mod lock;
pub mod util;
