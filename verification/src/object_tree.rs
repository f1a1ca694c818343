//! A tree in the style of a document object model: every node carries a
//! value and any number of children, each node is addressed by a stable
//! generational key, and each node's value sits in its own stable cell so
//! that different nodes can be borrowed — shared or exclusively —
//! independently of one another.

pub mod error;
pub mod node_ref;
pub mod tree;

pub use error::Error;
pub use node_ref::NodeRef;
pub use node_ref::NodeRefMut;
pub use tree::Tree;
pub use tree::TreeKey;
