//! Receipts for outstanding node borrows.
//!
//! A receipt carries nothing but the borrowed node's key, and only the
//! tree can mint one: the tree itself arbitrates every access through the
//! node's cell, and a receipt grants exactly what the cell's borrow state
//! records. Traversal goes back through the tree (`parent_key_of`,
//! `child_keys_of`, `try_get`), so edits made through other receipts are
//! always observed.

use vstd::prelude::*;
use crate::object_tree::tree::TreeKey;

verus! {

/// Receipt for one outstanding shared borrow of a tree node.
#[derive(Debug)]
pub struct NodeRef {
    key: TreeKey,
}

impl NodeRef {
    /// The key of the borrowed node.
    pub closed spec fn spec_key(self) -> TreeKey {
        self.key
    }

    /// Mint a receipt; only the tree's borrow operations do so.
    pub(crate) fn make(key: TreeKey) -> (r: NodeRef)
        ensures
            r.spec_key() == key,
    {
        NodeRef { key }
    }

    /// The key of the borrowed node.
    pub fn key(&self) -> (k: TreeKey)
        ensures
            k == self.spec_key(),
    {
        self.key
    }
}

/// Receipt for the outstanding exclusive borrow of a tree node.
#[derive(Debug)]
pub struct NodeRefMut {
    key: TreeKey,
}

impl NodeRefMut {
    /// The key of the borrowed node.
    pub closed spec fn spec_key(self) -> TreeKey {
        self.key
    }

    /// Mint a receipt; only the tree's borrow operations do so.
    pub(crate) fn make(key: TreeKey) -> (r: NodeRefMut)
        ensures
            r.spec_key() == key,
    {
        NodeRefMut { key }
    }

    /// The key of the borrowed node.
    pub fn key(&self) -> (k: TreeKey)
        ensures
            k == self.spec_key(),
    {
        self.key
    }
}

} // verus!
