//! The tree itself: a slot-keyed collection of stable cells plus the
//! parent, child and root bookkeeping.
//!
//! Keys are allocated by a slot map, whose generational versioning keeps a
//! fresh key distinct from every key currently live; the records
//! themselves are kept in a hash table keyed by the packed 64-bit form of
//! the slot key. Every structural operation maintains the relation
//! invariant: parent links and child lists mirror each other exactly, and
//! the roots are exactly the nodes without a parent, in insertion order.

use vstd::prelude::*;
use crate::object_tree::error::Error;
use crate::object_tree::node_ref::NodeRef;
use crate::object_tree::node_ref::NodeRefMut;
use crate::stable::cell::StableCell;
use crate::stable::util::max_count;
use std::collections::HashMap;

verus! {

broadcast use vstd::std_specs::hash::group_hash_axioms;

/// Generational key allocator backed by a slot map. Only the set of live
/// keys (in their packed 64-bit form) and the size of the slot table are
/// exposed to the proofs.
#[verifier::external_body]
pub struct KeyAlloc {
    inner: slotmap::SlotMap<slotmap::DefaultKey, ()>,
}

/// The packed forms of the keys currently live in the allocator.
pub uninterp spec fn key_alloc_live(a: KeyAlloc) -> Set<u64>;

/// The length of the allocator's internal slot table, the sentinel slot
/// the table is born with included; it grows by at most one per insertion
/// and never shrinks.
pub uninterp spec fn key_alloc_slots(a: KeyAlloc) -> nat;

/// Relies on slotmap::SlotMap::with_key: a fresh slot map holds no keys
/// and its slot table holds exactly the one sentinel slot.
#[verifier::external_body]
fn key_alloc_new() -> (a: KeyAlloc)
    ensures
        key_alloc_live(a) == Set::<u64>::empty(),
        key_alloc_slots(a) == 1,
{
    KeyAlloc { inner: slotmap::SlotMap::with_key() }
}

/// Relies on slotmap::SlotMap::insert and KeyData::as_ffi: the returned
/// key is distinct from every currently live key (a freed slot's version
/// is bumped before the slot is reused, and the packed form determines the
/// key), and the slot table grows by at most one entry. `insert` panics
/// exactly when the slot table holds u32::MAX slots and no freed slot can
/// be reused; the precondition rules that out. Nothing is claimed about
/// keys that were live once and have been removed: the slot versioning
/// keeps them distinct only until a slot's version wraps around, so
/// freshness is promised against the currently live keys alone.
#[verifier::external_body]
fn key_alloc_insert(a: &mut KeyAlloc) -> (k: u64)
    requires
        key_alloc_slots(*old(a)) < u32::MAX as nat,
    ensures
        !key_alloc_live(*old(a)).contains(k),
        key_alloc_live(*final(a)) == key_alloc_live(*old(a)).insert(k),
        key_alloc_slots(*final(a)) <= key_alloc_slots(*old(a)) + 1,
{
    let key = a.inner.insert(());
    slotmap::Key::data(&key).as_ffi()
}

/// Relies on slotmap::SlotMap::remove and KeyData::from_ffi: the packed
/// form of a live key round-trips through from_ffi, so exactly that key is
/// removed; the slot table keeps its size.
#[verifier::external_body]
fn key_alloc_remove(a: &mut KeyAlloc, k: u64)
    requires
        key_alloc_live(*old(a)).contains(k),
    ensures
        key_alloc_live(*final(a)) == key_alloc_live(*old(a)).remove(k),
        key_alloc_slots(*final(a)) == key_alloc_slots(*old(a)),
{
    let key: slotmap::DefaultKey = slotmap::KeyData::from_ffi(k).into();
    a.inner.remove(key);
}

/// Key for a node in a tree. Altering the tree does not invalidate the
/// key as long as the node it references is not removed. The contracts
/// promise that a freshly issued key differs from every key currently
/// live; that a key dead for a long time is never re-issued is the
/// allocator's versioning at work, which holds until a slot's version
/// wraps and is therefore not stated.
#[derive(Debug, Copy, Clone, PartialEq, Eq, Hash, Structural)]
pub struct TreeKey {
    raw: u64,
}

/// The key sequence corresponding to a sequence of packed key words.
spec fn wrap_keys(s: Seq<u64>) -> Seq<TreeKey> {
    s.map_values(|r: u64| TreeKey { raw: r })
}

/// One node: its value behind a stable cell, and its place in the tree.
struct NodeRecord<T> {
    cell: StableCell<T>,
    parent: Option<u64>,
    children: Vec<u64>,
}

/// A tree whose nodes are independently borrowable stable cells,
/// addressed by stable generational keys.
pub struct Tree<T> {
    alloc: KeyAlloc,
    nodes: HashMap<u64, NodeRecord<T>>,
    order: Vec<u64>,
    roots: Vec<u64>,
}

/// Whether a key word occurs in a vector of key words.
fn vec_contains(v: &Vec<u64>, x: u64) -> (r: bool)
    ensures
        r == v@.contains(x),
{
    let mut i: usize = 0;
    while i < v.len()
        invariant
            0 <= i <= v@.len(),
            forall|j: int| 0 <= j < i ==> v@[j] != x,
        decreases v@.len() - i,
    {
        if v[i] == x {
            return true;
        }
        i = i + 1;
    }
    false
}

/// Remove every occurrence of a key word from a vector of key words.
/// On a duplicate-free vector this removes at most one element and leaves
/// the rest in order; a vector without the word is returned unchanged.
fn vec_remove_value(v: &mut Vec<u64>, x: u64)
    requires
        old(v)@.no_duplicates(),
    ensures
        final(v)@.no_duplicates(),
        forall|y: u64| final(v)@.contains(y) <==> (old(v)@.contains(y) && y != x),
        !old(v)@.contains(x) ==> final(v)@ == old(v)@,
{
    let ghost orig = v@;
    let mut acc: Vec<u64> = Vec::new();
    let mut i: usize = 0;
    while i < v.len()
        invariant
            0 <= i <= v@.len(),
            v@ == orig,
            orig.no_duplicates(),
            acc@.no_duplicates(),
            forall|y: u64| acc@.contains(y) <==> (orig.subrange(0, i as int).contains(y) && y != x),
            !orig.subrange(0, i as int).contains(x) ==> acc@ == orig.subrange(0, i as int),
        decreases v@.len() - i,
    {
        proof {
            assert(orig.subrange(0, i + 1) =~= orig.subrange(0, i as int).push(orig[i as int]));
            assert(!acc@.contains(orig[i as int])) by {
                if orig.subrange(0, i as int).contains(orig[i as int]) {
                    let j = choose|j: int|
                        0 <= j < i && orig.subrange(0, i as int)[j] == orig[i as int];
                    assert(orig[j] == orig[i as int]);
                }
            }
        }
        let item = v[i];
        let ghost acc0 = acc@;
        if item != x {
            acc.push(item);
        }
        proof {
            let prefix = orig.subrange(0, i as int);
            let prefix1 = orig.subrange(0, i + 1);
            assert forall|y: u64| acc@.contains(y) implies (prefix1.contains(y) && y != x) by {
                let j = choose|j: int| 0 <= j < acc@.len() && acc@[j] == y;
                if j < acc0.len() {
                    assert(acc0[j] == y);
                    assert(acc0.contains(y));
                    let j2 = choose|j2: int| 0 <= j2 < prefix.len() && prefix[j2] == y;
                    assert(prefix1[j2] == y);
                } else {
                    assert(y == item);
                    assert(prefix1[i as int] == y);
                }
            }
            assert forall|y: u64| prefix1.contains(y) && y != x implies acc@.contains(y) by {
                let j = choose|j: int| 0 <= j < prefix1.len() && prefix1[j] == y;
                if j == i {
                    assert(y == item);
                    assert(acc@[acc@.len() - 1] == y);
                } else {
                    assert(prefix[j] == y);
                    assert(acc0.contains(y));
                    let j3 = choose|j3: int| 0 <= j3 < acc0.len() && acc0[j3] == y;
                    assert(acc@[j3] == y);
                }
            }
            assert(acc@.no_duplicates());
            if !prefix1.contains(x) {
                assert(!prefix.contains(x));
                assert(acc0 == prefix);
                assert(prefix1[i as int] == item);
                assert(item != x);
                assert(acc@ =~= prefix1);
            }
        }
        i = i + 1;
    }
    proof {
        assert(orig.subrange(0, orig.len() as int) =~= orig);
    }
    *v = acc;
}

/// Turn a vector of packed key words into a vector of keys.
fn to_key_vec(v: &Vec<u64>) -> (r: Vec<TreeKey>)
    ensures
        r@ == wrap_keys(v@),
{
    let mut out: Vec<TreeKey> = Vec::new();
    let mut i: usize = 0;
    while i < v.len()
        invariant
            0 <= i <= v@.len(),
            out@ == wrap_keys(v@.subrange(0, i as int)),
        decreases v@.len() - i,
    {
        out.push(TreeKey { raw: v[i] });
        proof {
            assert(v@.subrange(0, i + 1) =~= v@.subrange(0, i as int).push(v@[i as int]));
            assert(wrap_keys(v@.subrange(0, i + 1)) =~= wrap_keys(v@.subrange(0, i as int)).push(
                TreeKey { raw: v@[i as int] },
            ));
        }
        i = i + 1;
    }
    proof {
        assert(v@.subrange(0, v@.len() as int) =~= v@);
    }
    out
}

/// One node's local consistency within the relation map: its cell is
/// sound and owned by the tree, its child list is duplicate-free, every
/// child points back to it, and its parent (if any) lists it as a child.
spec fn node_ok<T>(m: Map<u64, NodeRecord<T>>, k: u64) -> bool {
    let r = m[k];
    &&& r.cell.wf()
    &&& !r.cell.freed()
    &&& !r.cell.pend()
    &&& r.children@.no_duplicates()
    &&& forall|j: int|
        0 <= j < r.children@.len() ==> {
            &&& m.contains_key(#[trigger] r.children@[j])
            &&& m[r.children@[j]].parent == Some(k)
        }
    &&& r.parent matches Some(p) ==> m.contains_key(p) && m[p].children@.contains(k)
}

/// Keep only the key words of `v` that do not occur in `rem`.
fn vec_remove_all(v: &Vec<u64>, rem: &Vec<u64>) -> (r: Vec<u64>)
    requires
        v@.no_duplicates(),
    ensures
        r@.no_duplicates(),
        forall|y: u64| r@.contains(y) <==> (v@.contains(y) && !rem@.contains(y)),
{
    let mut acc: Vec<u64> = Vec::new();
    let mut i: usize = 0;
    while i < v.len()
        invariant
            0 <= i <= v@.len(),
            v@.no_duplicates(),
            acc@.no_duplicates(),
            forall|y: u64|
                acc@.contains(y) <==> (v@.subrange(0, i as int).contains(y)
                    && !rem@.contains(y)),
        decreases v@.len() - i,
    {
        proof {
            assert(v@.subrange(0, i + 1) =~= v@.subrange(0, i as int).push(v@[i as int]));
            assert(!acc@.contains(v@[i as int])) by {
                if v@.subrange(0, i as int).contains(v@[i as int]) {
                    let j = choose|j: int|
                        0 <= j < i && v@.subrange(0, i as int)[j] == v@[i as int];
                    assert(v@[j] == v@[i as int]);
                }
            }
        }
        let item = v[i];
        let ghost acc0 = acc@;
        if !vec_contains(rem, item) {
            acc.push(item);
        }
        proof {
            let prefix = v@.subrange(0, i as int);
            let prefix1 = v@.subrange(0, i + 1);
            assert forall|y: u64| acc@.contains(y)
                implies (prefix1.contains(y) && !rem@.contains(y)) by {
                let j = choose|j: int| 0 <= j < acc@.len() && acc@[j] == y;
                if j < acc0.len() {
                    assert(acc0[j] == y);
                    assert(acc0.contains(y));
                    let j2 = choose|j2: int| 0 <= j2 < prefix.len() && prefix[j2] == y;
                    assert(prefix1[j2] == y);
                } else {
                    assert(y == item);
                    assert(prefix1[i as int] == y);
                }
            }
            assert forall|y: u64| prefix1.contains(y) && !rem@.contains(y)
                implies acc@.contains(y) by {
                let j = choose|j: int| 0 <= j < prefix1.len() && prefix1[j] == y;
                if j == i {
                    assert(y == item);
                    assert(acc@[acc@.len() - 1] == y);
                } else {
                    assert(prefix[j] == y);
                    assert(acc0.contains(y));
                    let j3 = choose|j3: int| 0 <= j3 < acc0.len() && acc0[j3] == y;
                    assert(acc@[j3] == y);
                }
            }
            assert(acc@.no_duplicates());
        }
        i = i + 1;
    }
    proof {
        assert(v@.subrange(0, v@.len() as int) =~= v@);
    }
    acc
}

/// Membership in a sequence extended by one element.
proof fn lemma_push_contains(s: Seq<u64>, e: u64)
    ensures
        forall|y: u64| #[trigger] s.push(e).contains(y) <==> (s.contains(y) || y == e),
{
    assert forall|y: u64| #[trigger] s.push(e).contains(y) implies (s.contains(y) || y == e) by {
        let j = choose|j: int| 0 <= j < s.push(e).len() && s.push(e)[j] == y;
        if j < s.len() {
            assert(s[j] == y);
        }
    }
    assert forall|y: u64| s.contains(y) || y == e implies #[trigger] s.push(e).contains(y) by {
        if s.contains(y) {
            let j = choose|j: int| 0 <= j < s.len() && s[j] == y;
            assert(s.push(e)[j] == y);
        } else {
            assert(s.push(e)[s.len() as int] == y);
        }
    }
}

/// Appending an absent element keeps a sequence duplicate-free.
proof fn lemma_push_no_dup(s: Seq<u64>, e: u64)
    requires
        s.no_duplicates(),
        !s.contains(e),
    ensures
        s.push(e).no_duplicates(),
{
    assert forall|i: int, j: int|
        0 <= i < s.push(e).len() && 0 <= j < s.push(e).len() && i != j
        implies s.push(e)[i] != s.push(e)[j] by {
        if i < s.len() && j < s.len() {
            assert(s[i] != s[j]);
        } else if i < s.len() {
            assert(s.contains(s[i]));
        } else if j < s.len() {
            assert(s.contains(s[j]));
        }
    }
}

/// A wrapped key sequence contains a key exactly when the underlying
/// sequence contains its packed word.
proof fn lemma_wrap_contains(s: Seq<u64>, t: TreeKey)
    ensures
        wrap_keys(s).contains(t) <==> s.contains(t.raw),
{
    if wrap_keys(s).contains(t) {
        let j = choose|j: int| 0 <= j < wrap_keys(s).len() && wrap_keys(s)[j] == t;
        assert(s[j] == t.raw);
    }
    if s.contains(t.raw) {
        let j = choose|j: int| 0 <= j < s.len() && s[j] == t.raw;
        assert(wrap_keys(s)[j] == t);
    }
}

/// Wrapping key words preserves duplicate-freedom.
proof fn lemma_wrap_no_dup(s: Seq<u64>)
    requires
        s.no_duplicates(),
    ensures
        wrap_keys(s).no_duplicates(),
{
    assert forall|i: int, j: int|
        0 <= i < wrap_keys(s).len() && 0 <= j < wrap_keys(s).len() && i != j
        implies wrap_keys(s)[i] != wrap_keys(s)[j] by {
        assert(s[i] != s[j]);
    }
}

/// After replacing the record at `kraw` with one that differs at most in
/// its cell — the cell still sound and tree-owned — the whole tree
/// invariant is preserved and every other node is untouched.
proof fn lemma_cell_only_update<T>(pre: Tree<T>, post: Tree<T>, kraw: u64)
    requires
        pre.wf(),
        pre.nodes@.contains_key(kraw),
        post.alloc == pre.alloc,
        post.order@ == pre.order@,
        post.roots@ == pre.roots@,
        post.nodes@ =~= pre.nodes@.insert(kraw, post.nodes@[kraw]),
        post.nodes@.contains_key(kraw),
        post.nodes@[kraw].parent == pre.nodes@[kraw].parent,
        post.nodes@[kraw].children@ == pre.nodes@[kraw].children@,
        post.nodes@[kraw].cell.wf(),
        !post.nodes@[kraw].cell.freed(),
        !post.nodes@[kraw].cell.pend(),
    ensures
        post.wf(),
        forall|k2: TreeKey| #[trigger] post.has(k2) <==> pre.has(k2),
        forall|k2: TreeKey|
            pre.has(k2) && k2.raw != kraw
                ==> #[trigger] Tree::node_untouched(pre, post, k2),
        post.key_list() == pre.key_list(),
        post.roots_list() == pre.roots_list(),
        post.slots() == pre.slots(),
        post.has(TreeKey { raw: kraw }),
        post.parent_of(TreeKey { raw: kraw }) == pre.parent_of(TreeKey { raw: kraw }),
        post.children_of(TreeKey { raw: kraw }) == pre.children_of(TreeKey { raw: kraw }),
{
    let m0 = pre.nodes@;
    let m = post.nodes@;
    assert(m.dom() =~= m0.dom());
    assert forall|k2: u64| #[trigger] m.contains_key(k2) implies node_ok(m, k2) by {
        assert(node_ok(m0, k2));
        let r2 = m[k2];
        assert(r2.parent == m0[k2].parent);
        assert(r2.children@ == m0[k2].children@);
        assert forall|j: int| 0 <= j < r2.children@.len() implies {
            &&& m.contains_key(#[trigger] r2.children@[j])
            &&& m[r2.children@[j]].parent == Some(k2)
        } by {
            assert(m0.contains_key(m0[k2].children@[j]));
            assert(m0[m0[k2].children@[j]].parent == Some(k2));
        }
        if m0[k2].parent is Some {
            let p = m0[k2].parent->Some_0;
            assert(m[p].children@ == m0[p].children@);
        }
    }
    assert forall|k2: u64| m.contains_key(k2) && m[k2].parent is None
        implies post.roots@.contains(k2) by {
        assert(m0[k2].parent is None);
    }
    assert forall|k2: TreeKey| pre.has(k2) && k2.raw != kraw
        implies #[trigger] Tree::node_untouched(pre, post, k2) by {
        assert(m[k2.raw] == m0[k2.raw]);
    }
}

/// The node whose child list needs fixing up when the subtree at `keyraw`
/// is deleted: the parent of `keyraw`, provided it survives the deletion.
spec fn fix_target<T>(m0: Map<u64, NodeRecord<T>>, keyraw: u64, coll: Seq<u64>) -> Option<u64> {
    match m0[keyraw].parent {
        Some(p) => if !coll.contains(p) {
            Some(p)
        } else {
            None
        },
        None => None,
    }
}

/// In a well-formed tree, every member of a children-closed collection of
/// key words that holds the subtree root also holds every node whose
/// parent chain reaches that root.
proof fn lemma_closed_collects<T>(t: Tree<T>, root: TreeKey, coll: Seq<u64>, k2: TreeKey, fuel: nat)
    requires
        t.wf(),
        coll.contains(root.raw),
        forall|x: u64, j: int|
            coll.contains(x) && t.nodes@.contains_key(x) && 0 <= j
                < t.nodes@[x].children@.len()
                ==> coll.contains(#[trigger] t.nodes@[x].children@[j]),
        t.has(k2),
        t.ancestor_within(root, k2, fuel),
    ensures
        coll.contains(k2.raw),
    decreases fuel,
{
    if k2 == root {
    } else {
        let p = t.parent_of(k2)->Some_0;
        assert(t.nodes@.contains_key(k2.raw));
        assert(node_ok(t.nodes@, k2.raw));
        assert(t.nodes@[k2.raw].parent == Some(p.raw));
        assert(t.nodes@.contains_key(p.raw));
        assert(t.nodes@[p.raw].children@.contains(k2.raw));
        assert(t.has(p));
        lemma_closed_collects(t, root, coll, p, (fuel - 1) as nat);
        let j = choose|j: int|
            0 <= j < t.nodes@[p.raw].children@.len() && t.nodes@[p.raw].children@[j] == k2.raw;
        assert(coll.contains(t.nodes@[p.raw].children@[j]));
    }
}

impl<T> Tree<T> {
    /// Whether `k` currently identifies a live node.
    pub closed spec fn has(self, k: TreeKey) -> bool {
        self.nodes@.contains_key(k.raw)
    }

    /// The value stored at a live node.
    pub closed spec fn val_of(self, k: TreeKey) -> T {
        self.nodes@[k.raw].cell.val()
    }

    /// The parent of a live node, if it has one.
    pub closed spec fn parent_of(self, k: TreeKey) -> Option<TreeKey> {
        match self.nodes@[k.raw].parent {
            Some(p) => Some(TreeKey { raw: p }),
            None => None,
        }
    }

    /// The children of a live node, in the order they were attached.
    pub closed spec fn children_of(self, k: TreeKey) -> Seq<TreeKey> {
        wrap_keys(self.nodes@[k.raw].children@)
    }

    /// The root keys, in insertion order.
    pub closed spec fn roots_list(self) -> Seq<TreeKey> {
        wrap_keys(self.roots@)
    }

    /// All live keys, in insertion order.
    pub closed spec fn key_list(self) -> Seq<TreeKey> {
        wrap_keys(self.order@)
    }

    /// Number of live nodes.
    pub open spec fn spec_len(self) -> nat {
        self.key_list().len()
    }

    /// Outstanding shared borrows of a node's cell.
    pub closed spec fn node_borrows(self, k: TreeKey) -> nat {
        self.nodes@[k.raw].cell.count()
    }

    /// Whether a node's cell is exclusively borrowed.
    pub closed spec fn node_excl(self, k: TreeKey) -> bool {
        self.nodes@[k.raw].cell.excl()
    }

    /// A node with no outstanding borrows at all.
    pub open spec fn node_idle(self, k: TreeKey) -> bool {
        self.node_borrows(k) == 0 && !self.node_excl(k)
    }

    /// A shared borrow of this node will be granted.
    pub open spec fn shared_grant(self, k: TreeKey) -> bool {
        !self.node_excl(k) && self.node_borrows(k) < max_count()
    }

    /// An exclusive borrow of this node will be granted.
    pub open spec fn excl_grant(self, k: TreeKey) -> bool {
        self.node_idle(k)
    }

    /// Size of the key allocator's slot table.
    pub closed spec fn slots(self) -> nat {
        key_alloc_slots(self.alloc)
    }

    /// The key allocator can accommodate another insertion.
    pub open spec fn room(self) -> bool {
        self.slots() < u32::MAX as nat
    }

    /// The tree's structural invariant.
    pub closed spec fn wf(self) -> bool {
        &&& self.order@.no_duplicates()
        &&& self.roots@.no_duplicates()
        &&& forall|k: u64| #[trigger] self.nodes@.contains_key(k) ==> self.order@.contains(k)
        &&& forall|j: int|
            0 <= j < self.order@.len() ==> self.nodes@.contains_key(#[trigger] self.order@[j])
        &&& key_alloc_live(self.alloc) == self.nodes@.dom()
        &&& forall|k: u64| #[trigger] self.nodes@.contains_key(k) ==> node_ok(self.nodes@, k)
        &&& forall|k: u64|
            self.nodes@.contains_key(k) && self.nodes@[k].parent is None
                ==> self.roots@.contains(k)
        &&& forall|j: int|
            0 <= j < self.roots@.len() ==> {
                &&& self.nodes@.contains_key(#[trigger] self.roots@[j])
                &&& self.nodes@[self.roots@[j]].parent is None
            }
    }

    /// Following parent links from `k` reaches `root` in at most `fuel`
    /// steps.
    pub open spec fn ancestor_within(self, root: TreeKey, k: TreeKey, fuel: nat) -> bool
        decreases fuel,
    {
        k == root || (fuel > 0 && self.has(k) && (self.parent_of(k) matches Some(p)
            && self.ancestor_within(root, p, (fuel - 1) as nat)))
    }

    /// `k` is `root` itself or one of its descendants: a live node whose
    /// parent chain reaches `root`.
    pub open spec fn in_subtree(self, root: TreeKey, k: TreeKey) -> bool {
        self.has(k) && exists|fuel: nat| self.ancestor_within(root, k, fuel)
    }

    /// Nothing about the node changed between two tree states.
    pub open spec fn node_untouched(pre: Tree<T>, post: Tree<T>, k: TreeKey) -> bool {
        &&& post.has(k)
        &&& post.val_of(k) == pre.val_of(k)
        &&& post.parent_of(k) == pre.parent_of(k)
        &&& post.children_of(k) == pre.children_of(k)
        &&& post.node_borrows(k) == pre.node_borrows(k)
        &&& post.node_excl(k) == pre.node_excl(k)
    }

    /// Create a new, empty tree.
    pub fn new() -> (t: Tree<T>)
        ensures
            t.wf(),
            t.key_list() == Seq::<TreeKey>::empty(),
            t.roots_list() == Seq::<TreeKey>::empty(),
            t.spec_len() == 0,
            t.slots() == 1,
            t.room(),
    {
        let t = Tree {
            alloc: key_alloc_new(),
            nodes: HashMap::new(),
            order: Vec::new(),
            roots: Vec::new(),
        };
        proof {
            assert(key_alloc_live(t.alloc) =~= t.nodes@.dom());
            assert(wrap_keys(t.order@) =~= Seq::<TreeKey>::empty());
            assert(wrap_keys(t.roots@) =~= Seq::<TreeKey>::empty());
        }
        t
    }

    /// The total number of nodes in this tree.
    pub fn len(&self) -> (n: usize)
        requires
            self.wf(),
        ensures
            n == self.spec_len(),
    {
        self.order.len()
    }

    /// Whether this tree contains no nodes.
    pub fn is_empty(&self) -> (r: bool)
        requires
            self.wf(),
        ensures
            r == (self.spec_len() == 0),
    {
        self.order.len() == 0
    }

    /// Add a new root node holding `val` and return its fresh key.
    pub fn add_root(&mut self, val: T) -> (k: TreeKey)
        requires
            old(self).wf(),
            old(self).room(),
        ensures
            final(self).wf(),
            !old(self).has(k),
            final(self).has(k),
            final(self).val_of(k) == val,
            final(self).parent_of(k) is None,
            final(self).children_of(k) == Seq::<TreeKey>::empty(),
            final(self).node_idle(k),
            final(self).key_list() == old(self).key_list().push(k),
            final(self).roots_list() == old(self).roots_list().push(k),
            final(self).spec_len() == old(self).spec_len() + 1,
            final(self).slots() <= old(self).slots() + 1,
            forall|k2: TreeKey|
                old(self).has(k2) ==> #[trigger] Tree::node_untouched(*old(self), *final(self), k2),
    {
        let raw = key_alloc_insert(&mut self.alloc);
        let record = NodeRecord { cell: StableCell::new(val), parent: None, children: Vec::new() };
        self.nodes.insert(raw, record);
        self.order.push(raw);
        self.roots.push(raw);
        let k = TreeKey { raw };
        proof {
            let pre = *old(self);
            let post = *self;
            assert(key_alloc_live(post.alloc) =~= post.nodes@.dom());
            assert(post.order@ == pre.order@.push(raw));
            assert(forall|j: int|
                0 <= j < pre.order@.len() ==> post.order@[j] == #[trigger] pre.order@[j]);
            assert(wrap_keys(post.order@) =~= wrap_keys(pre.order@).push(k));
            assert(wrap_keys(post.roots@) =~= wrap_keys(pre.roots@).push(k));
            assert(wrap_keys(post.nodes@[raw].children@) =~= Seq::<TreeKey>::empty());
            assert forall|k2: u64| #[trigger] post.nodes@.contains_key(k2)
                implies node_ok(post.nodes@, k2) by {
                if k2 != raw {
                    assert(node_ok(pre.nodes@, k2));
                    assert(post.nodes@[k2] == pre.nodes@[k2]);
                    let r = post.nodes@[k2];
                    assert(forall|j: int|
                        0 <= j < r.children@.len() ==> {
                            &&& post.nodes@.contains_key(#[trigger] r.children@[j])
                            &&& post.nodes@[r.children@[j]].parent == Some(k2)
                        });
                }
            }
            assert(post.order@.no_duplicates());
            assert(post.roots@.no_duplicates());
            assert forall|k2: u64| #[trigger] post.nodes@.contains_key(k2)
                implies post.order@.contains(k2) by {
                if k2 == raw {
                    assert(post.order@[post.order@.len() - 1] == raw);
                } else {
                    let j = choose|j: int| 0 <= j < pre.order@.len() && pre.order@[j] == k2;
                    assert(post.order@[j] == k2);
                }
            }
            assert forall|k2: u64|
                post.nodes@.contains_key(k2) && post.nodes@[k2].parent is None
                implies post.roots@.contains(k2) by {
                if k2 == raw {
                    assert(post.roots@[post.roots@.len() - 1] == raw);
                } else {
                    assert(pre.roots@.contains(k2));
                    let j = choose|j: int| 0 <= j < pre.roots@.len() && pre.roots@[j] == k2;
                    assert(post.roots@[j] == k2);
                }
            }
            assert forall|k2: TreeKey| pre.has(k2)
                implies #[trigger] Tree::node_untouched(pre, post, k2) by {
                assert(post.nodes@[k2.raw] == pre.nodes@[k2.raw]);
            }
        }
        k
    }

    /// Create a new child of `parent` holding `val` and return its fresh
    /// key; fails with `Missing`, leaving the tree unchanged, when `parent`
    /// does not identify a live node.
    pub fn add_child(&mut self, val: T, parent: TreeKey) -> (r: Result<TreeKey, Error>)
        requires
            old(self).wf(),
            old(self).room(),
        ensures
            final(self).wf(),
            r is Ok <==> old(self).has(parent),
            r matches Ok(k) ==> {
                &&& !old(self).has(k)
                &&& k != parent
                &&& final(self).has(k)
                &&& final(self).val_of(k) == val
                &&& final(self).parent_of(k) == Some(parent)
                &&& final(self).children_of(k) == Seq::<TreeKey>::empty()
                &&& final(self).node_idle(k)
                &&& final(self).key_list() == old(self).key_list().push(k)
                &&& final(self).roots_list() == old(self).roots_list()
                &&& final(self).spec_len() == old(self).spec_len() + 1
                &&& final(self).slots() <= old(self).slots() + 1
                &&& final(self).children_of(parent) == old(self).children_of(parent).push(k)
                &&& final(self).val_of(parent) == old(self).val_of(parent)
                &&& final(self).parent_of(parent) == old(self).parent_of(parent)
                &&& final(self).node_borrows(parent) == old(self).node_borrows(parent)
                &&& final(self).node_excl(parent) == old(self).node_excl(parent)
                &&& forall|k2: TreeKey|
                    old(self).has(k2) && k2 != parent
                        ==> #[trigger] Tree::node_untouched(*old(self), *final(self), k2)
            },
            r is Err ==> r == Err::<TreeKey, Error>(Error::Missing) && *final(self) == *old(self),
    {
        if !self.nodes.contains_key(&parent.raw) {
            return Err(Error::Missing);
        }
        let raw = key_alloc_insert(&mut self.alloc);
        let record = NodeRecord {
            cell: StableCell::new(val),
            parent: Some(parent.raw),
            children: Vec::new(),
        };
        self.nodes.insert(raw, record);
        self.order.push(raw);
        let mut parent_record = self.nodes.remove(&parent.raw).unwrap();
        parent_record.children.push(raw);
        self.nodes.insert(parent.raw, parent_record);
        let k = TreeKey { raw };
        proof {
            let pre = *old(self);
            let post = *self;
            let m0 = pre.nodes@;
            let m = post.nodes@;
            let newrec = m[raw];
            let prec = m[parent.raw];
            assert(m =~= m0.insert(raw, newrec).insert(parent.raw, prec));
            assert(key_alloc_live(post.alloc) =~= m.dom());
            assert(prec.children@ == m0[parent.raw].children@.push(raw));
            assert(wrap_keys(post.order@) =~= wrap_keys(pre.order@).push(k));
            assert(wrap_keys(prec.children@) =~= wrap_keys(m0[parent.raw].children@).push(k));
            assert(wrap_keys(newrec.children@) =~= Seq::<TreeKey>::empty());
            // the fresh key is in no old child list and not in the old order
            assert(!pre.order@.contains(raw));
            assert forall|k2: u64| #[trigger] m.contains_key(k2) implies node_ok(m, k2) by {
                if k2 == raw {
                    assert(prec.children@[prec.children@.len() - 1] == raw);
                } else if k2 == parent.raw {
                    assert(node_ok(m0, parent.raw));
                    let ch = prec.children@;
                    assert forall|j: int| 0 <= j < ch.len() implies {
                        &&& m.contains_key(#[trigger] ch[j])
                        &&& m[ch[j]].parent == Some(parent.raw)
                    } by {
                        if j < ch.len() - 1 {
                            assert(ch[j] == m0[parent.raw].children@[j]);
                            assert(m0.contains_key(ch[j]));
                            assert(m0[ch[j]].parent == Some(parent.raw));
                        }
                    }
                    assert(ch.no_duplicates()) by {
                        assert(forall|j: int|
                            0 <= j < ch.len() - 1 ==> m0.contains_key(
                                #[trigger] m0[parent.raw].children@[j],
                            ));
                    }
                    assert(prec.parent matches Some(p) ==> m.contains_key(p)
                        && m[p].children@.contains(parent.raw)) by {
                        if m0[parent.raw].parent is Some {
                            let p = m0[parent.raw].parent->Some_0;
                            assert(m0[p].children@.contains(parent.raw));
                            if p == parent.raw {
                                let j = choose|j: int|
                                    0 <= j < m0[p].children@.len()
                                        && m0[p].children@[j] == parent.raw;
                                assert(prec.children@[j] == parent.raw);
                            }
                        }
                    }
                } else {
                    assert(node_ok(m0, k2));
                    assert(m[k2] == m0[k2]);
                    let r2 = m[k2];
                    assert forall|j: int| 0 <= j < r2.children@.len() implies {
                        &&& m.contains_key(#[trigger] r2.children@[j])
                        &&& m[r2.children@[j]].parent == Some(k2)
                    } by {
                        assert(m0.contains_key(r2.children@[j]));
                        assert(m0[r2.children@[j]].parent == Some(k2));
                    }
                    assert(r2.parent matches Some(p) ==> m.contains_key(p)
                        && m[p].children@.contains(k2)) by {
                        if m0[k2].parent is Some {
                            let p = m0[k2].parent->Some_0;
                            assert(m0[p].children@.contains(k2));
                            if p == parent.raw {
                                let j = choose|j: int|
                                    0 <= j < m0[p].children@.len() && m0[p].children@[j] == k2;
                                assert(prec.children@[j] == k2);
                            }
                        }
                    }
                }
            }
            assert forall|k2: u64| #[trigger] m.contains_key(k2)
                implies post.order@.contains(k2) by {
                if k2 == raw {
                    assert(post.order@[post.order@.len() - 1] == raw);
                } else {
                    let j = choose|j: int| 0 <= j < pre.order@.len() && pre.order@[j] == k2;
                    assert(post.order@[j] == k2);
                }
            }
            assert forall|k2: u64| m.contains_key(k2) && m[k2].parent is None
                implies post.roots@.contains(k2) by {
                assert(k2 != raw);
                assert(m0[k2].parent is None);
            }
            assert(post.order@.no_duplicates());
            assert forall|k2: TreeKey| pre.has(k2) && k2 != parent
                implies #[trigger] Tree::node_untouched(pre, post, k2) by {
                assert(k2.raw != raw);
                assert(m[k2.raw] == m0[k2.raw]);
            }
        }
        Ok(k)
    }

    /// Make `parent` the parent of `child`, detaching `child` from its
    /// current parent first (or from the root set, if it was a root), and
    /// appending it to `parent`'s child list. The update is atomic: it
    /// happens entirely or — when either key is dead, with `Missing` — not
    /// at all. Calling it again with the same arguments leaves `child`
    /// listed under `parent` exactly once: the child list stays
    /// duplicate-free.
    pub fn set_child(&mut self, parent: TreeKey, child: TreeKey) -> (r: Result<(), Error>)
        requires
            old(self).wf(),
        ensures
            final(self).wf(),
            r is Ok <==> old(self).has(parent) && old(self).has(child),
            r is Err ==> r == Err::<(), Error>(Error::Missing) && *final(self) == *old(self),
            r is Ok ==> {
                &&& final(self).parent_of(child) == Some(parent)
                &&& final(self).children_of(parent).contains(child)
                &&& final(self).children_of(parent).no_duplicates()
                &&& forall|x: TreeKey|
                    #[trigger] final(self).children_of(parent).contains(x)
                        <==> (x == child || (old(self).children_of(parent).contains(x)
                        && x != child))
                &&& final(self).key_list() == old(self).key_list()
                &&& final(self).slots() == old(self).slots()
                &&& forall|k2: TreeKey| #[trigger] final(self).has(k2) <==> old(self).has(k2)
                &&& old(self).parent_of(child) is Some ==> final(self).roots_list()
                    == old(self).roots_list()
                &&& old(self).parent_of(child) is None ==> {
                    &&& final(self).roots_list().no_duplicates()
                    &&& forall|x: TreeKey|
                        #[trigger] final(self).roots_list().contains(x)
                            <==> (old(self).roots_list().contains(x) && x != child)
                }
                &&& final(self).val_of(child) == old(self).val_of(child)
                &&& final(self).node_borrows(child) == old(self).node_borrows(child)
                &&& final(self).node_excl(child) == old(self).node_excl(child)
                &&& child != parent && old(self).parent_of(child) != Some(child)
                    ==> final(self).children_of(child) == old(self).children_of(child)
                &&& final(self).val_of(parent) == old(self).val_of(parent)
                &&& final(self).node_borrows(parent) == old(self).node_borrows(parent)
                &&& final(self).node_excl(parent) == old(self).node_excl(parent)
                &&& child != parent ==> final(self).parent_of(parent)
                    == old(self).parent_of(parent)
                &&& forall|q: TreeKey|
                    old(self).has(q) && old(self).parent_of(child) == Some(q) && q != parent
                        && q != child ==> {
                        &&& (#[trigger] final(self).children_of(q)).no_duplicates()
                        &&& forall|x: TreeKey|
                            #[trigger] final(self).children_of(q).contains(x)
                                <==> (old(self).children_of(q).contains(x) && x != child)
                        &&& final(self).val_of(q) == old(self).val_of(q)
                        &&& final(self).parent_of(q) == old(self).parent_of(q)
                        &&& final(self).node_borrows(q) == old(self).node_borrows(q)
                        &&& final(self).node_excl(q) == old(self).node_excl(q)
                    }
                &&& forall|k2: TreeKey|
                    old(self).has(k2) && k2 != parent && k2 != child
                        && old(self).parent_of(child) != Some(k2)
                        ==> #[trigger] Tree::node_untouched(*old(self), *final(self), k2)
            },
    {
        if !self.nodes.contains_key(&parent.raw) || !self.nodes.contains_key(&child.raw) {
            return Err(Error::Missing);
        }
        let ghost pre = *old(self);
        let old_parent = match self.nodes.get(&child.raw) {
            Some(rec) => rec.parent,
            None => None,
        };
        match old_parent {
            Some(q) => {
                let mut qrec = self.nodes.remove(&q).unwrap();
                vec_remove_value(&mut qrec.children, child.raw);
                self.nodes.insert(q, qrec);
            }
            None => {
                vec_remove_value(&mut self.roots, child.raw);
            }
        }
        let ghost mid = *self;
        let mut crec = self.nodes.remove(&child.raw).unwrap();
        crec.parent = Some(parent.raw);
        self.nodes.insert(child.raw, crec);
        let mut prec = self.nodes.remove(&parent.raw).unwrap();
        let ghost stem = prec.children@;
        prec.children.push(child.raw);
        self.nodes.insert(parent.raw, prec);
        proof {
            let post = *self;
            let m0 = pre.nodes@;
            let m1 = mid.nodes@;
            let m = post.nodes@;
            let praw = parent.raw;
            let craw = child.raw;
            let oldp = m0[craw].parent;
            assert(m1.dom() =~= m0.dom());
            assert(m.dom() =~= m0.dom());
            // after the detach step: only the old parent's child list changed
            assert(forall|x: u64| #[trigger] m1.contains_key(x) && Some(x) != oldp
                ==> m1[x] == m0[x]);
            assert(oldp matches Some(q) ==> {
                &&& m1[q].cell == m0[q].cell
                &&& m1[q].parent == m0[q].parent
                &&& m1[q].children@.no_duplicates()
                &&& forall|y: u64| #[trigger] m1[q].children@.contains(y)
                    <==> (m0[q].children@.contains(y) && y != craw)
            });
            // after all three steps
            assert(m[craw].parent == Some(praw));
            assert(m[craw].cell == m0[craw].cell);
            assert(craw != praw ==> m[craw].children@ == m1[craw].children@);
            assert(m[praw].children@ == stem.push(craw));
            assert(m[praw].cell == m0[praw].cell);
            assert(praw != craw ==> m[praw].parent == m0[praw].parent);
            assert(stem == if praw == craw { m1[craw].children@ } else { m1[praw].children@ });
            assert(forall|x: u64| #[trigger] m.contains_key(x) && x != craw && x != praw
                ==> m[x] == m1[x]);
            // membership in the old parent's list after detaching
            lemma_push_contains(stem, craw);
            assert(!stem.contains(craw)) by {
                if oldp == Some(praw) {
                    assert(m1[praw].children@ == stem);
                } else if m0[praw].children@.contains(craw) {
                    assert(node_ok(m0, praw));
                    let j0 = choose|j0: int|
                        0 <= j0 < m0[praw].children@.len() && m0[praw].children@[j0] == craw;
                    assert(m0[craw].parent == Some(praw));
                }
            }
            assert(m[praw].children@.no_duplicates()) by {
                assert(node_ok(m0, praw));
                if oldp == Some(praw) || praw == craw {
                } else {
                    assert(stem == m0[praw].children@);
                }
                lemma_push_no_dup(stem, craw);
            }
            // one characterization of every record in the new map
            assert forall|x: u64| #[trigger] m.contains_key(x) implies {
                &&& m[x].cell == m0[x].cell
                &&& m[x].parent == if x == craw {
                    Some(praw)
                } else {
                    m0[x].parent
                }
                &&& m[x].children@.no_duplicates()
                &&& forall|y: u64|
                    #[trigger] m[x].children@.contains(y) <==> ((m0[x].children@.contains(y)
                        && !(y == craw && oldp == Some(x))) || (x == praw && y == craw))
            } by {
                assert(node_ok(m0, x));
                if x == praw {
                } else if x == craw {
                    assert(m[x].children@ == m1[x].children@);
                } else if Some(x) == oldp {
                    assert(m[x] == m1[x]);
                } else {
                    assert(m[x].children@ == m0[x].children@);
                }
            }
            // the relation invariant holds of the new map
            assert forall|x: u64| #[trigger] m.contains_key(x) implies node_ok(m, x) by {
                assert(node_ok(m0, x));
                let r2 = m[x];
                assert forall|j: int| 0 <= j < r2.children@.len() implies {
                    &&& m.contains_key(#[trigger] r2.children@[j])
                    &&& m[r2.children@[j]].parent == Some(x)
                } by {
                    let y = r2.children@[j];
                    assert(r2.children@.contains(y));
                    if x == praw && y == craw {
                    } else {
                        assert(m0[x].children@.contains(y) && !(y == craw && oldp == Some(x)));
                        let j0 = choose|j0: int|
                            0 <= j0 < m0[x].children@.len() && m0[x].children@[j0] == y;
                        assert(m0.contains_key(y));
                        assert(m0[y].parent == Some(x));
                        assert(y != craw);
                    }
                }
                if m[x].parent is Some {
                    let p = m[x].parent->Some_0;
                    if x == craw {
                        assert(p == praw);
                        assert(m[praw].children@.contains(craw));
                    } else {
                        assert(m0[x].parent == Some(p));
                        assert(m0[p].children@.contains(x));
                        assert(m[p].children@.contains(x));
                    }
                }
            }
            // order membership
            assert forall|k2: u64| #[trigger] m.contains_key(k2)
                implies post.order@.contains(k2) by {
                assert(m0.contains_key(k2));
            }
            // roots characterization
            assert forall|k2: u64| m.contains_key(k2) && m[k2].parent is None
                implies post.roots@.contains(k2) by {
                assert(k2 != craw);
                assert(m0[k2].parent is None);
                assert(pre.roots@.contains(k2));
            }
            assert forall|j: int| 0 <= j < post.roots@.len() implies {
                &&& m.contains_key(#[trigger] post.roots@[j])
                &&& m[post.roots@[j]].parent is None
            } by {
                let y = post.roots@[j];
                assert(post.roots@.contains(y));
                if oldp is None {
                    assert(pre.roots@.contains(y) && y != craw);
                } else {
                    assert(pre.roots@.contains(y));
                    assert(m0[y].parent is None);
                    assert(y != craw);
                }
            }
            // the public clauses, over wrapped keys
            lemma_wrap_contains(m[praw].children@, child);
            lemma_wrap_no_dup(m[praw].children@);
            assert forall|x: TreeKey|
                #[trigger] post.children_of(parent).contains(x)
                    <==> (x == child || (pre.children_of(parent).contains(x) && x != child)) by {
                lemma_wrap_contains(m[praw].children@, x);
                lemma_wrap_contains(m0[praw].children@, x);
            }
            if oldp is None {
                lemma_wrap_no_dup(post.roots@);
                assert forall|x: TreeKey|
                    #[trigger] post.roots_list().contains(x)
                        <==> (pre.roots_list().contains(x) && x != child) by {
                    lemma_wrap_contains(post.roots@, x);
                    lemma_wrap_contains(pre.roots@, x);
                }
            }
            assert forall|q: TreeKey|
                pre.has(q) && pre.parent_of(child) == Some(q) && q != parent && q != child
                implies {
                    &&& (#[trigger] post.children_of(q)).no_duplicates()
                    &&& forall|x: TreeKey|
                        #[trigger] post.children_of(q).contains(x)
                            <==> (pre.children_of(q).contains(x) && x != child)
                    &&& post.val_of(q) == pre.val_of(q)
                    &&& post.parent_of(q) == pre.parent_of(q)
                    &&& post.node_borrows(q) == pre.node_borrows(q)
                    &&& post.node_excl(q) == pre.node_excl(q)
                } by {
                assert(oldp == Some(q.raw));
                lemma_wrap_no_dup(m[q.raw].children@);
                assert forall|x: TreeKey|
                    #[trigger] post.children_of(q).contains(x)
                        <==> (pre.children_of(q).contains(x) && x != child) by {
                    lemma_wrap_contains(m[q.raw].children@, x);
                    lemma_wrap_contains(m0[q.raw].children@, x);
                }
            }
            assert forall|k2: TreeKey|
                pre.has(k2) && k2 != parent && k2 != child && pre.parent_of(child) != Some(k2)
                implies #[trigger] Tree::node_untouched(pre, post, k2) by {
                assert(Some(k2.raw) != oldp);
                assert(m[k2.raw] == m0[k2.raw]);
            }
        }
        Ok(())
    }

    /// Detach `child` from `parent`, making it a root again; the node is
    /// not deleted. Fails with `Missing`, leaving the tree unchanged,
    /// unless both keys are live and `parent` really is the parent of
    /// `child`.
    pub fn remove_child(&mut self, parent: TreeKey, child: TreeKey) -> (r: Result<(), Error>)
        requires
            old(self).wf(),
        ensures
            final(self).wf(),
            r is Ok <==> old(self).has(parent) && old(self).has(child)
                && old(self).parent_of(child) == Some(parent),
            r is Err ==> r == Err::<(), Error>(Error::Missing) && *final(self) == *old(self),
            r is Ok ==> {
                &&& final(self).parent_of(child) is None
                &&& final(self).roots_list() == old(self).roots_list().push(child)
                &&& final(self).children_of(parent).no_duplicates()
                &&& forall|x: TreeKey|
                    #[trigger] final(self).children_of(parent).contains(x)
                        <==> (old(self).children_of(parent).contains(x) && x != child)
                &&& final(self).key_list() == old(self).key_list()
                &&& final(self).slots() == old(self).slots()
                &&& forall|k2: TreeKey| #[trigger] final(self).has(k2) <==> old(self).has(k2)
                &&& final(self).val_of(child) == old(self).val_of(child)
                &&& final(self).node_borrows(child) == old(self).node_borrows(child)
                &&& final(self).node_excl(child) == old(self).node_excl(child)
                &&& parent != child ==> final(self).children_of(child)
                    == old(self).children_of(child)
                &&& final(self).val_of(parent) == old(self).val_of(parent)
                &&& final(self).node_borrows(parent) == old(self).node_borrows(parent)
                &&& final(self).node_excl(parent) == old(self).node_excl(parent)
                &&& parent != child ==> final(self).parent_of(parent)
                    == old(self).parent_of(parent)
                &&& forall|k2: TreeKey|
                    old(self).has(k2) && k2 != parent && k2 != child
                        ==> #[trigger] Tree::node_untouched(*old(self), *final(self), k2)
            },
    {
        if !self.nodes.contains_key(&parent.raw) || !self.nodes.contains_key(&child.raw) {
            return Err(Error::Missing);
        }
        let is_parent = match self.nodes.get(&child.raw) {
            Some(rec) => match rec.parent {
                Some(p) => p == parent.raw,
                None => false,
            },
            None => false,
        };
        if !is_parent {
            return Err(Error::Missing);
        }
        let ghost pre = *old(self);
        let mut prec = self.nodes.remove(&parent.raw).unwrap();
        vec_remove_value(&mut prec.children, child.raw);
        self.nodes.insert(parent.raw, prec);
        let ghost mid = *self;
        let mut crec = self.nodes.remove(&child.raw).unwrap();
        crec.parent = None;
        self.nodes.insert(child.raw, crec);
        self.roots.push(child.raw);
        proof {
            let post = *self;
            let m0 = pre.nodes@;
            let m1 = mid.nodes@;
            let m = post.nodes@;
            let praw = parent.raw;
            let craw = child.raw;
            assert(m1.dom() =~= m0.dom());
            assert(m.dom() =~= m0.dom());
            assert(m1[praw].cell == m0[praw].cell);
            assert(m1[praw].parent == m0[praw].parent);
            assert(m1[praw].children@.no_duplicates());
            assert(forall|y: u64| #[trigger] m1[praw].children@.contains(y)
                <==> (m0[praw].children@.contains(y) && y != craw));
            assert(forall|x: u64| #[trigger] m1.contains_key(x) && x != praw ==> m1[x] == m0[x]);
            assert(m[craw].parent is None);
            assert(m[craw].cell == m0[craw].cell);
            assert(m[craw].children@ == m1[craw].children@);
            assert(forall|x: u64| #[trigger] m.contains_key(x) && x != craw ==> m[x] == m1[x]);
            // every record of the new map, characterized
            assert forall|x: u64| #[trigger] m.contains_key(x) implies {
                &&& m[x].cell == m0[x].cell
                &&& m[x].parent == if x == craw {
                    None
                } else {
                    m0[x].parent
                }
                &&& m[x].children@.no_duplicates()
                &&& forall|y: u64|
                    #[trigger] m[x].children@.contains(y) <==> (m0[x].children@.contains(y)
                        && !(y == craw && x == praw))
            } by {
                assert(node_ok(m0, x));
                if x == praw {
                } else if x == craw {
                    assert(m[x].children@ == m1[x].children@);
                } else {
                    assert(m[x] == m0[x]);
                }
            }
            // the relation invariant
            assert forall|x: u64| #[trigger] m.contains_key(x) implies node_ok(m, x) by {
                assert(node_ok(m0, x));
                let r2 = m[x];
                assert forall|j: int| 0 <= j < r2.children@.len() implies {
                    &&& m.contains_key(#[trigger] r2.children@[j])
                    &&& m[r2.children@[j]].parent == Some(x)
                } by {
                    let y = r2.children@[j];
                    assert(r2.children@.contains(y));
                    assert(m0[x].children@.contains(y) && !(y == craw && x == praw));
                    let j0 = choose|j0: int|
                        0 <= j0 < m0[x].children@.len() && m0[x].children@[j0] == y;
                    assert(m0.contains_key(y));
                    assert(m0[y].parent == Some(x));
                    assert(y != craw) by {
                        if y == craw {
                            assert(m0[craw].parent == Some(praw));
                        }
                    }
                }
                if m[x].parent is Some {
                    let p = m[x].parent->Some_0;
                    assert(x != craw);
                    assert(m0[x].parent == Some(p));
                    assert(m0[p].children@.contains(x));
                    assert(m[p].children@.contains(x));
                }
            }
            // order membership
            assert forall|k2: u64| #[trigger] m.contains_key(k2)
                implies post.order@.contains(k2) by {
                assert(m0.contains_key(k2));
            }
            // roots: the child joins, nothing leaves
            lemma_push_contains(pre.roots@, craw);
            assert(!pre.roots@.contains(craw)) by {
                if pre.roots@.contains(craw) {
                    let j = choose|j: int|
                        0 <= j < pre.roots@.len() && pre.roots@[j] == craw;
                    assert(m0[craw].parent is None);
                }
            }
            lemma_push_no_dup(pre.roots@, craw);
            assert forall|k2: u64| m.contains_key(k2) && m[k2].parent is None
                implies post.roots@.contains(k2) by {
                if k2 != craw {
                    assert(m0[k2].parent is None);
                    assert(pre.roots@.contains(k2));
                }
            }
            assert forall|j: int| 0 <= j < post.roots@.len() implies {
                &&& m.contains_key(#[trigger] post.roots@[j])
                &&& m[post.roots@[j]].parent is None
            } by {
                let y = post.roots@[j];
                assert(post.roots@.contains(y));
                if y != craw {
                    assert(pre.roots@.contains(y));
                    assert(m0[y].parent is None);
                }
            }
            // public clauses over wrapped keys
            assert(wrap_keys(post.roots@) =~= wrap_keys(pre.roots@).push(child));
            lemma_wrap_no_dup(m[praw].children@);
            assert forall|x: TreeKey|
                #[trigger] post.children_of(parent).contains(x)
                    <==> (pre.children_of(parent).contains(x) && x != child) by {
                lemma_wrap_contains(m[praw].children@, x);
                lemma_wrap_contains(m0[praw].children@, x);
            }
            assert forall|k2: TreeKey|
                pre.has(k2) && k2 != parent && k2 != child
                implies #[trigger] Tree::node_untouched(pre, post, k2) by {
                assert(m[k2.raw] == m0[k2.raw]);
            }
        }
        Ok(())
    }

    /// Delete the node at `key` and, recursively, every descendant. The
    /// operation is atomic: if `key` is dead it fails with `Missing`, and
    /// if any node of the subtree — `key` itself or a descendant — is
    /// currently borrowed it fails with `CantBorrow`; in both cases the
    /// tree is left completely unmodified. On success every node of the
    /// subtree is gone, no relation entry anywhere still mentions one of
    /// them, and every node outside the subtree is untouched.
    pub fn remove_recursive(&mut self, key: TreeKey) -> (r: Result<(), Error>)
        requires
            old(self).wf(),
        ensures
            final(self).wf(),
            r == Err::<(), Error>(Error::Missing) <==> !old(self).has(key),
            r == Err::<(), Error>(Error::CantBorrow) <==> (old(self).has(key)
                && exists|b: TreeKey|
                    #[trigger] old(self).in_subtree(key, b) && !old(self).node_idle(b)),
            r is Err ==> *final(self) == *old(self),
            r is Ok ==> {
                &&& forall|k2: TreeKey| #[trigger] final(self).has(k2)
                    <==> (old(self).has(k2) && !old(self).in_subtree(key, k2))
                &&& final(self).slots() == old(self).slots()
                &&& old(self).parent_of(key) is None ==> {
                    &&& final(self).roots_list().no_duplicates()
                    &&& forall|x: TreeKey|
                        #[trigger] final(self).roots_list().contains(x)
                            <==> (old(self).roots_list().contains(x) && x != key)
                }
                &&& old(self).parent_of(key) is Some ==> final(self).roots_list()
                    == old(self).roots_list()
                &&& forall|p: TreeKey|
                    old(self).parent_of(key) == Some(p) && !old(self).in_subtree(key, p)
                        ==> {
                        &&& (#[trigger] final(self).children_of(p)).no_duplicates()
                        &&& forall|x: TreeKey|
                            #[trigger] final(self).children_of(p).contains(x)
                                <==> (old(self).children_of(p).contains(x) && x != key)
                        &&& final(self).val_of(p) == old(self).val_of(p)
                        &&& final(self).parent_of(p) == old(self).parent_of(p)
                        &&& final(self).node_borrows(p) == old(self).node_borrows(p)
                        &&& final(self).node_excl(p) == old(self).node_excl(p)
                    }
                &&& forall|k2: TreeKey|
                    old(self).has(k2) && !old(self).in_subtree(key, k2)
                        && old(self).parent_of(key) != Some(k2)
                        ==> #[trigger] Tree::node_untouched(*old(self), *final(self), k2)
            },
    {
        if !self.nodes.contains_key(&key.raw) {
            return Err(Error::Missing);
        }
        let ghost pre = *old(self);
        let ghost m0 = pre.nodes@;
        // first pass: walk the subtree, refusing if any node is borrowed
        let mut stack: Vec<u64> = Vec::new();
        let mut coll: Vec<u64> = Vec::new();
        stack.push(key.raw);
        proof {
            assert(pre.ancestor_within(key, key, 0));
            assert(pre.in_subtree(key, key));
            assert(stack@[0] == key.raw);
        }
        while stack.len() > 0
            invariant
                *self == pre,
                pre.wf(),
                pre.nodes@ == m0,
                m0.contains_key(key.raw),
                coll@.no_duplicates(),
                coll@.len() <= m0.dom().len(),
                forall|j: int| 0 <= j < coll@.len() ==> m0.contains_key(#[trigger] coll@[j]),
                forall|j: int|
                    0 <= j < coll@.len() ==> pre.in_subtree(key, TreeKey { raw: coll@[j] }),
                forall|j: int|
                    0 <= j < coll@.len() ==> pre.node_idle(TreeKey { raw: coll@[j] }),
                forall|j: int|
                    0 <= j < coll@.len() ==> (#[trigger] coll@[j] == key.raw
                        || (m0[coll@[j]].parent is Some && coll@.contains(
                            m0[coll@[j]].parent->Some_0,
                        ))),
                forall|j: int| 0 <= j < stack@.len() ==> m0.contains_key(#[trigger] stack@[j]),
                forall|j: int|
                    0 <= j < stack@.len() ==> pre.in_subtree(key, TreeKey { raw: stack@[j] }),
                forall|j: int|
                    0 <= j < stack@.len() ==> (#[trigger] stack@[j] == key.raw
                        || (m0[stack@[j]].parent is Some && coll@.contains(
                            m0[stack@[j]].parent->Some_0,
                        ))),
                forall|j: int, jc: int|
                    0 <= j < coll@.len() && 0 <= jc < m0[coll@[j]].children@.len()
                        ==> (coll@.contains(#[trigger] m0[coll@[j]].children@[jc])
                        || stack@.contains(m0[coll@[j]].children@[jc])),
                coll@.contains(key.raw) || stack@.contains(key.raw),
            decreases m0.dom().len() - coll@.len(), stack@.len(),
        {
            let ghost stack0 = stack@;
            let x = stack.pop().unwrap();
            proof {
                assert(x == stack0.last());
                assert(stack@ == stack0.drop_last());
                assert(stack0.contains(x)) by {
                    assert(stack0[stack0.len() - 1] == x);
                }
                assert forall|y: u64| stack0.contains(y) && y != x
                    implies stack@.contains(y) by {
                    let j = choose|j: int| 0 <= j < stack0.len() && stack0[j] == y;
                    assert(j < stack0.len() - 1);
                    assert(stack@[j] == y);
                }
            }
            if !vec_contains(&coll, x) {
                proof {
                    assert(node_ok(m0, x));
                }
                let rec = self.nodes.get(&x).unwrap();
                if !rec.cell.can_borrow_mut() {
                    proof {
                        assert(pre.in_subtree(key, TreeKey { raw: x }));
                        assert(!pre.node_idle(TreeKey { raw: x }));
                    }
                    return Err(Error::CantBorrow);
                }
                proof {
                    lemma_push_contains(coll@, x);
                    lemma_push_no_dup(coll@, x);
                    let cp = coll@.push(x);
                    cp.unique_seq_to_set();
                    assert forall|y: u64| cp.to_set().contains(y)
                        implies m0.dom().contains(y) by {
                        assert(cp.contains(y));
                        if y != x {
                            assert(coll@.contains(y));
                            let j = choose|j: int| 0 <= j < coll@.len() && coll@[j] == y;
                        }
                    }
                    assert(cp.to_set().subset_of(m0.dom()));
                    assert(m0.dom().finite());
                    vstd::set_lib::lemma_len_subset(cp.to_set(), m0.dom());
                    assert(cp.len() <= m0.dom().len());
                }
                coll.push(x);
                let ghost coll1 = coll@;
                let mut ci: usize = 0;
                while ci < rec.children.len()
                    invariant
                        0 <= ci <= rec.children@.len(),
                        coll@ == coll1,
                        rec.children@ == m0[x].children@,
                        m0.contains_key(x),
                        pre.wf(),
                        pre.nodes@ == m0,
                        pre.in_subtree(key, TreeKey { raw: x }),
                        coll@.contains(x),
                        forall|j: int|
                            0 <= j < stack@.len() ==> m0.contains_key(#[trigger] stack@[j]),
                        forall|j: int|
                            0 <= j < stack@.len() ==> pre.in_subtree(
                                key,
                                TreeKey { raw: stack@[j] },
                            ),
                        forall|j: int|
                            0 <= j < stack@.len() ==> (#[trigger] stack@[j] == key.raw
                                || (m0[stack@[j]].parent is Some && coll@.contains(
                                    m0[stack@[j]].parent->Some_0,
                                ))),
                        forall|jc: int|
                            0 <= jc < ci ==> (coll@.contains(
                                #[trigger] m0[x].children@[jc],
                            ) || stack@.contains(m0[x].children@[jc])),
                        forall|j: int, jc: int|
                            0 <= j < coll@.len() && coll@[j] != x && 0 <= jc
                                < m0[coll@[j]].children@.len()
                                ==> (coll@.contains(#[trigger] m0[coll@[j]].children@[jc])
                                || stack@.contains(m0[coll@[j]].children@[jc])),
                        coll@.contains(key.raw) || stack@.contains(key.raw),
                    decreases rec.children@.len() - ci,
                {
                    let ghost stack1 = stack@;
                    let c = rec.children[ci];
                    proof {
                        assert(node_ok(m0, x));
                        assert(m0.contains_key(c));
                        assert(m0[c].parent == Some(x));
                        let xw = TreeKey { raw: x };
                        let cw = TreeKey { raw: c };
                        let f = choose|f: nat| pre.ancestor_within(key, xw, f);
                        assert(pre.parent_of(cw) == Some(xw));
                        assert(pre.ancestor_within(key, cw, f + 1));
                        assert(pre.in_subtree(key, cw));
                    }
                    stack.push(c);
                    proof {
                        lemma_push_contains(stack1, c);
                        assert(stack@[stack@.len() - 1] == c);
                        assert forall|j: int| 0 <= j < stack@.len() implies (
                            #[trigger] stack@[j] == key.raw || (m0[stack@[j]].parent is Some
                                && coll@.contains(m0[stack@[j]].parent->Some_0))) by {
                            if j < stack@.len() - 1 {
                                assert(stack@[j] == stack1[j]);
                            } else {
                                assert(stack@[j] == c);
                            }
                        }
                    }
                    ci = ci + 1;
                }
            }
        }
        // every subtree node is idle: detach the subtree root, then delete
        let parent_raw: Option<u64> = match self.nodes.get(&key.raw) {
            Some(rec) => rec.parent,
            None => None,
        };
        let parent_survives: bool = match parent_raw {
            Some(p) => !vec_contains(&coll, p),
            None => false,
        };
        if parent_survives {
            let p = match parent_raw {
                Some(p) => p,
                None => 0,
            };
            let mut prec = self.nodes.remove(&p).unwrap();
            vec_remove_value(&mut prec.children, key.raw);
            self.nodes.insert(p, prec);
        } else if parent_raw.is_none() {
            vec_remove_value(&mut self.roots, key.raw);
        }
        let ghost mfix = self.nodes@;
        let ghost rootsfix = self.roots@;
        let mut i: usize = 0;
        while i < coll.len()
            invariant
                0 <= i <= coll@.len(),
                coll@.no_duplicates(),
                forall|j: int| 0 <= j < coll@.len() ==> mfix.contains_key(#[trigger] coll@[j]),
                forall|y: u64|
                    #[trigger] self.nodes@.contains_key(y) <==> (mfix.contains_key(y)
                        && !coll@.subrange(0, i as int).contains(y)),
                forall|y: u64|
                    self.nodes@.contains_key(y) ==> self.nodes@[y] == mfix[y],
                key_alloc_live(self.alloc) == self.nodes@.dom(),
                key_alloc_slots(self.alloc) == pre.slots(),
                self.order@ == pre.order@,
                self.roots@ == rootsfix,
            decreases coll@.len() - i,
        {
            let x = coll[i];
            proof {
                assert(mfix.contains_key(x));
                assert(!coll@.subrange(0, i as int).contains(x)) by {
                    if coll@.subrange(0, i as int).contains(x) {
                        let j = choose|j: int|
                            0 <= j < i && coll@.subrange(0, i as int)[j] == x;
                        assert(coll@[j] == coll@[i as int]);
                    }
                }
                assert(self.nodes@.contains_key(x));
                assert(key_alloc_live(self.alloc).contains(x));
            }
            self.nodes.remove(&x);
            key_alloc_remove(&mut self.alloc, x);
            proof {
                assert(coll@.subrange(0, i + 1) =~= coll@.subrange(0, i as int).push(
                    coll@[i as int],
                ));
                assert(key_alloc_live(self.alloc) =~= self.nodes@.dom());
                assert forall|y: u64| #[trigger] self.nodes@.contains_key(y)
                    implies (mfix.contains_key(y) && !coll@.subrange(0, i + 1).contains(y)) by {
                    lemma_push_contains(coll@.subrange(0, i as int), coll@[i as int]);
                }
                assert forall|y: u64|
                    mfix.contains_key(y) && !coll@.subrange(0, i + 1).contains(y)
                    implies #[trigger] self.nodes@.contains_key(y) by {
                    lemma_push_contains(coll@.subrange(0, i as int), coll@[i as int]);
                }
            }
            i = i + 1;
        }
        let new_order = vec_remove_all(&self.order, &coll);
        self.order = new_order;
        proof {
            assert(coll@.subrange(0, coll@.len() as int) =~= coll@);
            assert(mfix.dom() =~= pre.nodes@.dom());
            assert(fix_target(pre.nodes@, key.raw, coll@) matches Some(p) ==> {
                &&& mfix[p].cell == pre.nodes@[p].cell
                &&& mfix[p].parent == pre.nodes@[p].parent
                &&& mfix[p].children@.no_duplicates()
                &&& forall|y: u64|
                    #[trigger] mfix[p].children@.contains(y)
                        <==> (pre.nodes@[p].children@.contains(y) && y != key.raw)
            });
            self.lemma_remove_recursive_post(pre, key, coll@, mfix, rootsfix);
        }
        Ok(())
    }

    /// Try to take a shared borrow of the node identified by `key`. Fails
    /// with `Missing` for a dead key and with `CantBorrow` exactly when the
    /// node is exclusively borrowed (or its borrow count is exhausted); the
    /// tree is untouched on failure.
    pub fn try_get(&mut self, key: TreeKey) -> (r: Result<NodeRef, Error>)
        requires
            old(self).wf(),
        ensures
            final(self).wf(),
            r matches Ok(nr) ==> nr.spec_key() == key,
            r is Ok <==> old(self).has(key) && old(self).shared_grant(key),
            r == Err::<NodeRef, Error>(Error::Missing) <==> !old(self).has(key),
            r == Err::<NodeRef, Error>(Error::CantBorrow) <==> old(self).has(key)
                && !old(self).shared_grant(key),
            r is Err ==> *final(self) == *old(self),
            r is Ok ==> {
                &&& final(self).node_borrows(key) == old(self).node_borrows(key) + 1
                &&& final(self).node_excl(key) == old(self).node_excl(key)
                &&& final(self).val_of(key) == old(self).val_of(key)
                &&& final(self).parent_of(key) == old(self).parent_of(key)
                &&& final(self).children_of(key) == old(self).children_of(key)
                &&& final(self).key_list() == old(self).key_list()
                &&& final(self).roots_list() == old(self).roots_list()
                &&& final(self).slots() == old(self).slots()
                &&& forall|k2: TreeKey| #[trigger] final(self).has(k2) <==> old(self).has(k2)
                &&& forall|k2: TreeKey|
                    old(self).has(k2) && k2 != key
                        ==> #[trigger] Tree::node_untouched(*old(self), *final(self), k2)
            },
    {
        let can = match self.nodes.get(&key.raw) {
            None => {
                return Err(Error::Missing);
            }
            Some(rec) => rec.cell.can_borrow(),
        };
        if !can {
            return Err(Error::CantBorrow);
        }
        let mut rec = self.nodes.remove(&key.raw).unwrap();
        let receipt = rec.cell.try_borrow();
        self.nodes.insert(key.raw, rec);
        proof {
            let pre = *old(self);
            let post = *self;
            assert(receipt is Some);
            assert(post.nodes@ =~= pre.nodes@.insert(key.raw, post.nodes@[key.raw]));
            lemma_cell_only_update(pre, post, key.raw);
            assert(TreeKey { raw: key.raw } == key);
        }
        Ok(NodeRef::make(key))
    }

    /// Try to take the exclusive borrow of the node identified by `key`.
    /// Fails with `Missing` for a dead key and with `CantBorrow` exactly
    /// when any borrow is outstanding; the tree is untouched on failure.
    pub fn try_get_mut(&mut self, key: TreeKey) -> (r: Result<NodeRefMut, Error>)
        requires
            old(self).wf(),
        ensures
            final(self).wf(),
            r matches Ok(nm) ==> nm.spec_key() == key,
            r is Ok <==> old(self).has(key) && old(self).excl_grant(key),
            r == Err::<NodeRefMut, Error>(Error::Missing) <==> !old(self).has(key),
            r == Err::<NodeRefMut, Error>(Error::CantBorrow) <==> old(self).has(key)
                && !old(self).excl_grant(key),
            r is Err ==> *final(self) == *old(self),
            r is Ok ==> {
                &&& final(self).node_borrows(key) == 0
                &&& final(self).node_excl(key)
                &&& final(self).val_of(key) == old(self).val_of(key)
                &&& final(self).parent_of(key) == old(self).parent_of(key)
                &&& final(self).children_of(key) == old(self).children_of(key)
                &&& final(self).key_list() == old(self).key_list()
                &&& final(self).roots_list() == old(self).roots_list()
                &&& final(self).slots() == old(self).slots()
                &&& forall|k2: TreeKey| #[trigger] final(self).has(k2) <==> old(self).has(k2)
                &&& forall|k2: TreeKey|
                    old(self).has(k2) && k2 != key
                        ==> #[trigger] Tree::node_untouched(*old(self), *final(self), k2)
            },
    {
        let can = match self.nodes.get(&key.raw) {
            None => {
                return Err(Error::Missing);
            }
            Some(rec) => rec.cell.can_borrow_mut(),
        };
        if !can {
            return Err(Error::CantBorrow);
        }
        let mut rec = self.nodes.remove(&key.raw).unwrap();
        let receipt = rec.cell.try_borrow_mut();
        self.nodes.insert(key.raw, rec);
        proof {
            let pre = *old(self);
            let post = *self;
            assert(receipt is Some);
            assert(post.nodes@ =~= pre.nodes@.insert(key.raw, post.nodes@[key.raw]));
            lemma_cell_only_update(pre, post, key.raw);
            assert(TreeKey { raw: key.raw } == key);
        }
        Ok(NodeRefMut::make(key))
    }

    /// Hand back one shared borrow. Releasing against a dead key, or a
    /// node with no shared borrows recorded, changes nothing.
    pub fn release(&mut self, r: NodeRef)
        requires
            old(self).wf(),
        ensures
            final(self).wf(),
            !old(self).has(r.spec_key()) ==> *final(self) == *old(self),
            old(self).has(r.spec_key()) ==> {
                &&& final(self).node_borrows(r.spec_key()) == if old(self).node_borrows(r.spec_key()) > 0 {
                    (old(self).node_borrows(r.spec_key()) - 1) as nat
                } else {
                    0nat
                }
                &&& final(self).node_excl(r.spec_key()) == old(self).node_excl(r.spec_key())
                &&& final(self).val_of(r.spec_key()) == old(self).val_of(r.spec_key())
                &&& final(self).parent_of(r.spec_key()) == old(self).parent_of(r.spec_key())
                &&& final(self).children_of(r.spec_key()) == old(self).children_of(r.spec_key())
                &&& final(self).key_list() == old(self).key_list()
                &&& final(self).roots_list() == old(self).roots_list()
                &&& final(self).slots() == old(self).slots()
                &&& forall|k2: TreeKey| #[trigger] final(self).has(k2) <==> old(self).has(k2)
                &&& forall|k2: TreeKey|
                    old(self).has(k2) && k2 != r.spec_key()
                        ==> #[trigger] Tree::node_untouched(*old(self), *final(self), k2)
            },
    {
        let key = r.key();
        if !self.nodes.contains_key(&key.raw) {
            return;
        }
        let mut rec = self.nodes.remove(&key.raw).unwrap();
        let freed = rec.cell.release_ref(crate::stable::cell::StableRef);
        self.nodes.insert(key.raw, rec);
        proof {
            let pre = *old(self);
            let post = *self;
            assert(freed is None);
            assert(post.nodes@ =~= pre.nodes@.insert(key.raw, post.nodes@[key.raw]));
            lemma_cell_only_update(pre, post, key.raw);
            assert(TreeKey { raw: key.raw } == key);
        }
    }

    /// Hand back the exclusive borrow. Releasing against a dead key, or a
    /// node that is not exclusively borrowed, changes nothing.
    pub fn release_mut(&mut self, m: NodeRefMut)
        requires
            old(self).wf(),
        ensures
            final(self).wf(),
            !old(self).has(m.spec_key()) ==> *final(self) == *old(self),
            old(self).has(m.spec_key()) ==> {
                &&& final(self).node_borrows(m.spec_key()) == old(self).node_borrows(m.spec_key())
                &&& !final(self).node_excl(m.spec_key())
                &&& final(self).val_of(m.spec_key()) == old(self).val_of(m.spec_key())
                &&& final(self).parent_of(m.spec_key()) == old(self).parent_of(m.spec_key())
                &&& final(self).children_of(m.spec_key()) == old(self).children_of(m.spec_key())
                &&& final(self).key_list() == old(self).key_list()
                &&& final(self).roots_list() == old(self).roots_list()
                &&& final(self).slots() == old(self).slots()
                &&& forall|k2: TreeKey| #[trigger] final(self).has(k2) <==> old(self).has(k2)
                &&& forall|k2: TreeKey|
                    old(self).has(k2) && k2 != m.spec_key()
                        ==> #[trigger] Tree::node_untouched(*old(self), *final(self), k2)
            },
    {
        let key = m.key();
        if !self.nodes.contains_key(&key.raw) {
            return;
        }
        let mut rec = self.nodes.remove(&key.raw).unwrap();
        let freed = rec.cell.release_mut(crate::stable::cell::StableMut);
        self.nodes.insert(key.raw, rec);
        proof {
            let pre = *old(self);
            let post = *self;
            assert(freed is None);
            assert(post.nodes@ =~= pre.nodes@.insert(key.raw, post.nodes@[key.raw]));
            lemma_cell_only_update(pre, post, key.raw);
            assert(TreeKey { raw: key.raw } == key);
        }
    }

    /// Read a node's value. The read is refused — like any shared access —
    /// while the node is exclusively borrowed, and for a dead key.
    pub fn node_value(&self, key: TreeKey) -> (r: Option<&T>)
        requires
            self.wf(),
        ensures
            r is Some <==> self.has(key) && !self.node_excl(key),
            r matches Some(v) ==> *v == self.val_of(key),
    {
        match self.nodes.get(&key.raw) {
            Some(rec) => {
                if rec.cell.exclusively_borrowed() {
                    None
                } else {
                    Some(rec.cell.value())
                }
            }
            None => None,
        }
    }

    /// Replace the value of the node an exclusive borrow receipt refers
    /// to. Nothing happens — and `false` is returned — unless the node is
    /// live and currently exclusively borrowed, so mutation is only ever
    /// visible through the exclusive receipt that acquired the borrow.
    pub fn set_node_value(&mut self, m: &NodeRefMut, val: T) -> (ok: bool)
        requires
            old(self).wf(),
        ensures
            final(self).wf(),
            ok <==> old(self).has(m.spec_key()) && old(self).node_excl(m.spec_key()),
            !ok ==> *final(self) == *old(self),
            ok ==> {
                &&& final(self).val_of(m.spec_key()) == val
                &&& final(self).node_borrows(m.spec_key()) == old(self).node_borrows(m.spec_key())
                &&& final(self).node_excl(m.spec_key()) == old(self).node_excl(m.spec_key())
                &&& final(self).parent_of(m.spec_key()) == old(self).parent_of(m.spec_key())
                &&& final(self).children_of(m.spec_key()) == old(self).children_of(m.spec_key())
                &&& final(self).key_list() == old(self).key_list()
                &&& final(self).roots_list() == old(self).roots_list()
                &&& final(self).slots() == old(self).slots()
                &&& forall|k2: TreeKey| #[trigger] final(self).has(k2) <==> old(self).has(k2)
                &&& forall|k2: TreeKey|
                    old(self).has(k2) && k2 != m.spec_key()
                        ==> #[trigger] Tree::node_untouched(*old(self), *final(self), k2)
            },
    {
        let key = m.key();
        let excl = match self.nodes.get(&key.raw) {
            None => {
                return false;
            }
            Some(rec) => rec.cell.exclusively_borrowed(),
        };
        if !excl {
            return false;
        }
        let mut rec = self.nodes.remove(&key.raw).unwrap();
        rec.cell.set_value(val);
        self.nodes.insert(key.raw, rec);
        proof {
            let pre = *old(self);
            let post = *self;
            assert(post.nodes@ =~= pre.nodes@.insert(key.raw, post.nodes@[key.raw]));
            lemma_cell_only_update(pre, post, key.raw);
            assert(TreeKey { raw: key.raw } == key);
        }
        true
    }

    /// Try to promote a shared borrow into the exclusive borrow. The
    /// shared borrow is released first, and the exclusive borrow is then
    /// granted exactly when no other borrow remains — so promotion
    /// succeeds if and only if the receipt's borrow was the only one. On
    /// failure the shared borrow stays released.
    pub fn try_promote(&mut self, r: NodeRef) -> (res: Result<NodeRefMut, Error>)
        requires
            old(self).wf(),
        ensures
            final(self).wf(),
            res matches Ok(nm) ==> nm.spec_key() == r.spec_key(),
            res is Ok <==> old(self).has(r.spec_key()) && !old(self).node_excl(r.spec_key())
                && old(self).node_borrows(r.spec_key()) <= 1,
            res == Err::<NodeRefMut, Error>(Error::Missing) <==> !old(self).has(r.spec_key()),
            !old(self).has(r.spec_key()) ==> *final(self) == *old(self),
            old(self).has(r.spec_key()) ==> {
                &&& final(self).val_of(r.spec_key()) == old(self).val_of(r.spec_key())
                &&& final(self).parent_of(r.spec_key()) == old(self).parent_of(r.spec_key())
                &&& final(self).children_of(r.spec_key()) == old(self).children_of(r.spec_key())
                &&& final(self).key_list() == old(self).key_list()
                &&& final(self).roots_list() == old(self).roots_list()
                &&& final(self).slots() == old(self).slots()
                &&& forall|k2: TreeKey| #[trigger] final(self).has(k2) <==> old(self).has(k2)
                &&& forall|k2: TreeKey|
                    old(self).has(k2) && k2 != r.spec_key()
                        ==> #[trigger] Tree::node_untouched(*old(self), *final(self), k2)
            },
            res is Ok ==> final(self).node_excl(r.spec_key()) && final(self).node_borrows(r.spec_key()) == 0,
            old(self).has(r.spec_key()) && res is Err ==> {
                &&& final(self).node_excl(r.spec_key()) == old(self).node_excl(r.spec_key())
                &&& final(self).node_borrows(r.spec_key()) == if old(self).node_borrows(r.spec_key()) > 0 {
                    (old(self).node_borrows(r.spec_key()) - 1) as nat
                } else {
                    0nat
                }
            },
    {
        let key = r.key();
        if !self.nodes.contains_key(&key.raw) {
            return Err(Error::Missing);
        }
        let mut rec = self.nodes.remove(&key.raw).unwrap();
        let freed = rec.cell.release_ref(crate::stable::cell::StableRef);
        let receipt = rec.cell.try_borrow_mut();
        self.nodes.insert(key.raw, rec);
        proof {
            let pre = *old(self);
            let post = *self;
            assert(freed is None);
            assert(post.nodes@ =~= pre.nodes@.insert(key.raw, post.nodes@[key.raw]));
            lemma_cell_only_update(pre, post, key.raw);
            assert(TreeKey { raw: key.raw } == key);
        }
        match receipt {
            Some(_) => Ok(NodeRefMut::make(key)),
            None => Err(Error::CantBorrow),
        }
    }

    /// Promote a shared borrow that is known to be the only one into the
    /// exclusive borrow. Where the caller cannot guarantee uniqueness,
    /// `try_promote` reports the conflict instead.
    pub fn promote(&mut self, r: NodeRef) -> (m: NodeRefMut)
        requires
            old(self).wf(),
            old(self).has(r.spec_key()),
            old(self).node_borrows(r.spec_key()) == 1,
            !old(self).node_excl(r.spec_key()),
        ensures
            final(self).wf(),
            m.spec_key() == r.spec_key(),
            final(self).node_excl(r.spec_key()),
            final(self).node_borrows(r.spec_key()) == 0,
            final(self).val_of(r.spec_key()) == old(self).val_of(r.spec_key()),
            final(self).parent_of(r.spec_key()) == old(self).parent_of(r.spec_key()),
            final(self).children_of(r.spec_key()) == old(self).children_of(r.spec_key()),
            final(self).key_list() == old(self).key_list(),
            final(self).roots_list() == old(self).roots_list(),
            final(self).slots() == old(self).slots(),
            forall|k2: TreeKey| #[trigger] final(self).has(k2) <==> old(self).has(k2),
            forall|k2: TreeKey|
                old(self).has(k2) && k2 != r.spec_key()
                    ==> #[trigger] Tree::node_untouched(*old(self), *final(self), k2),
    {
        let key = r.key();
        let res = self.try_promote(r);
        match res {
            Ok(m) => m,
            Err(_) => NodeRefMut::make(key),
        }
    }

    /// Demote the exclusive borrow into a shared one; releasing exclusive
    /// access and immediately re-acquiring shared access cannot conflict,
    /// so for a genuinely exclusively borrowed node this always succeeds.
    /// A receipt whose node is dead or not exclusively borrowed leaves the
    /// tree unchanged.
    pub fn demote(&mut self, m: NodeRefMut) -> (r: NodeRef)
        requires
            old(self).wf(),
        ensures
            final(self).wf(),
            r.spec_key() == m.spec_key(),
            !(old(self).has(m.spec_key()) && old(self).node_excl(m.spec_key())) ==> *final(self) == *old(self),
            old(self).has(m.spec_key()) && old(self).node_excl(m.spec_key()) ==> {
                &&& final(self).node_borrows(m.spec_key()) == 1
                &&& !final(self).node_excl(m.spec_key())
                &&& final(self).val_of(m.spec_key()) == old(self).val_of(m.spec_key())
                &&& final(self).parent_of(m.spec_key()) == old(self).parent_of(m.spec_key())
                &&& final(self).children_of(m.spec_key()) == old(self).children_of(m.spec_key())
                &&& final(self).key_list() == old(self).key_list()
                &&& final(self).roots_list() == old(self).roots_list()
                &&& final(self).slots() == old(self).slots()
                &&& forall|k2: TreeKey| #[trigger] final(self).has(k2) <==> old(self).has(k2)
                &&& forall|k2: TreeKey|
                    old(self).has(k2) && k2 != m.spec_key()
                        ==> #[trigger] Tree::node_untouched(*old(self), *final(self), k2)
            },
    {
        let key = m.key();
        let excl = match self.nodes.get(&key.raw) {
            None => {
                return NodeRef::make(key);
            }
            Some(rec) => rec.cell.exclusively_borrowed(),
        };
        if !excl {
            return NodeRef::make(key);
        }
        let mut rec = self.nodes.remove(&key.raw).unwrap();
        let freed = rec.cell.release_mut(crate::stable::cell::StableMut);
        let receipt = rec.cell.try_borrow();
        self.nodes.insert(key.raw, rec);
        proof {
            let pre = *old(self);
            let post = *self;
            assert(freed is None);
            assert(receipt is Some);
            assert(post.nodes@ =~= pre.nodes@.insert(key.raw, post.nodes@[key.raw]));
            lemma_cell_only_update(pre, post, key.raw);
            assert(TreeKey { raw: key.raw } == key);
        }
        NodeRef::make(key)
    }

    /// Everything `remove_recursive` promises, proved from the state the
    /// two passes leave behind: `coll` is exactly the subtree (it is
    /// children-closed, holds the root, and every member's parent chain
    /// reaches the root), `mfix` is the node map after detaching the
    /// subtree root from a surviving parent, and the final map, allocator,
    /// order and roots have dropped exactly the collected keys.
    proof fn lemma_remove_recursive_post(
        &self,
        pre: Tree<T>,
        key: TreeKey,
        coll: Seq<u64>,
        mfix: Map<u64, NodeRecord<T>>,
        rootsfix: Seq<u64>,
    )
        requires
            pre.wf(),
            pre.nodes@.contains_key(key.raw),
            coll.no_duplicates(),
            forall|j: int| 0 <= j < coll.len() ==> pre.nodes@.contains_key(#[trigger] coll[j]),
            forall|j: int| 0 <= j < coll.len() ==> pre.in_subtree(key, TreeKey { raw: coll[j] }),
            forall|j: int| 0 <= j < coll.len() ==> pre.node_idle(TreeKey { raw: coll[j] }),
            forall|j: int|
                0 <= j < coll.len() ==> (#[trigger] coll[j] == key.raw
                    || (pre.nodes@[coll[j]].parent is Some && coll.contains(
                        pre.nodes@[coll[j]].parent->Some_0,
                    ))),
            forall|j: int, jc: int|
                0 <= j < coll.len() && 0 <= jc < pre.nodes@[coll[j]].children@.len()
                    ==> coll.contains(#[trigger] pre.nodes@[coll[j]].children@[jc]),
            coll.contains(key.raw),
            mfix.dom() == pre.nodes@.dom(),
            forall|y: u64|
                mfix.contains_key(y) && Some(y) != fix_target(pre.nodes@, key.raw, coll)
                    ==> mfix[y] == pre.nodes@[y],
            fix_target(pre.nodes@, key.raw, coll) matches Some(p) ==> {
                &&& mfix[p].cell == pre.nodes@[p].cell
                &&& mfix[p].parent == pre.nodes@[p].parent
                &&& mfix[p].children@.no_duplicates()
                &&& forall|y: u64|
                    #[trigger] mfix[p].children@.contains(y)
                        <==> (pre.nodes@[p].children@.contains(y) && y != key.raw)
            },
            pre.nodes@[key.raw].parent is None ==> {
                &&& rootsfix.no_duplicates()
                &&& forall|y: u64|
                    #[trigger] rootsfix.contains(y) <==> (pre.roots@.contains(y)
                        && y != key.raw)
            },
            pre.nodes@[key.raw].parent is Some ==> rootsfix == pre.roots@,
            forall|y: u64|
                #[trigger] self.nodes@.contains_key(y) <==> (mfix.contains_key(y)
                    && !coll.contains(y)),
            forall|y: u64| self.nodes@.contains_key(y) ==> self.nodes@[y] == mfix[y],
            key_alloc_live(self.alloc) == self.nodes@.dom(),
            key_alloc_slots(self.alloc) == pre.slots(),
            self.roots@ == rootsfix,
            self.order@.no_duplicates(),
            forall|y: u64|
                #[trigger] self.order@.contains(y) <==> (pre.order@.contains(y)
                    && !coll.contains(y)),
        ensures
            self.wf(),
            forall|k2: TreeKey| #[trigger] self.has(k2)
                <==> (pre.has(k2) && !pre.in_subtree(key, k2)),
            forall|b: TreeKey| #[trigger] pre.in_subtree(key, b) ==> pre.node_idle(b),
            self.slots() == pre.slots(),
            pre.parent_of(key) is None ==> {
                &&& self.roots_list().no_duplicates()
                &&& forall|x: TreeKey|
                    #[trigger] self.roots_list().contains(x)
                        <==> (pre.roots_list().contains(x) && x != key)
            },
            pre.parent_of(key) is Some ==> self.roots_list() == pre.roots_list(),
            forall|p: TreeKey|
                pre.parent_of(key) == Some(p) && !pre.in_subtree(key, p) ==> {
                    &&& (#[trigger] self.children_of(p)).no_duplicates()
                    &&& forall|x: TreeKey|
                        #[trigger] self.children_of(p).contains(x)
                            <==> (pre.children_of(p).contains(x) && x != key)
                    &&& self.val_of(p) == pre.val_of(p)
                    &&& self.parent_of(p) == pre.parent_of(p)
                    &&& self.node_borrows(p) == pre.node_borrows(p)
                    &&& self.node_excl(p) == pre.node_excl(p)
                },
            forall|k2: TreeKey|
                pre.has(k2) && !pre.in_subtree(key, k2) && pre.parent_of(key) != Some(k2)
                    ==> #[trigger] Tree::node_untouched(pre, *self, k2),
    {
        let m0 = pre.nodes@;
        let m = self.nodes@;
        // the collection is exactly the subtree
        assert forall|k2: TreeKey| pre.in_subtree(key, k2) implies coll.contains(k2.raw) by {
            let f = choose|f: nat| pre.ancestor_within(key, k2, f);
            lemma_closed_collects(pre, key, coll, k2, f);
        }
        assert forall|y: u64| coll.contains(y)
            implies pre.in_subtree(key, TreeKey { raw: y }) && pre.node_idle(
            TreeKey { raw: y },
        ) && m0.contains_key(y) by {
            let j = choose|j: int| 0 <= j < coll.len() && coll[j] == y;
        }
        let popt = m0[key.raw].parent;
        let ft = fix_target(m0, key.raw, coll);
        // every remaining record satisfies the relation invariant
        assert forall|y: u64| #[trigger] m.contains_key(y) implies node_ok(m, y) by {
            assert(mfix.contains_key(y) && !coll.contains(y));
            assert(node_ok(m0, y));
            let r2 = m[y];
            assert forall|j: int| 0 <= j < r2.children@.len() implies {
                &&& m.contains_key(#[trigger] r2.children@[j])
                &&& m[r2.children@[j]].parent == Some(y)
            } by {
                let c = r2.children@[j];
                if Some(y) == ft {
                    assert(r2.children@ == mfix[y].children@);
                    assert(r2.children@.contains(c));
                    assert(m0[y].children@.contains(c) && c != key.raw);
                    let j0 = choose|j0: int|
                        0 <= j0 < m0[y].children@.len() && m0[y].children@[j0] == c;
                    assert(m0.contains_key(c));
                    assert(m0[c].parent == Some(y));
                    assert(!coll.contains(c)) by {
                        if coll.contains(c) {
                            assert(pre.nodes@[c].parent is Some && coll.contains(
                                pre.nodes@[c].parent->Some_0,
                            ));
                        }
                    }
                    assert(m[c] == mfix[c]);
                    assert(m[c].parent == m0[c].parent) by {
                        if Some(c) == ft {
                            assert(mfix[c].parent == m0[c].parent);
                        } else {
                            assert(mfix[c] == m0[c]);
                        }
                    }
                } else {
                    assert(r2.children@ == m0[y].children@);
                    assert(r2.children@.contains(c));
                    let j0 = choose|j0: int|
                        0 <= j0 < m0[y].children@.len() && m0[y].children@[j0] == c;
                    assert(m0.contains_key(c));
                    assert(m0[c].parent == Some(y));
                    assert(!coll.contains(c)) by {
                        if coll.contains(c) {
                            if c == key.raw {
                                assert(popt == Some(y));
                                assert(ft == Some(y));
                            } else {
                                assert(coll.contains(m0[c].parent->Some_0));
                            }
                        }
                    }
                    assert(m[c] == mfix[c]);
                    if Some(c) == ft {
                        assert(mfix[c].parent == m0[c].parent);
                    } else {
                        assert(mfix[c] == m0[c]);
                    }
                }
            }
            if m[y].parent is Some {
                let q = m[y].parent->Some_0;
                assert(m[y].parent == m0[y].parent) by {
                    if Some(y) == ft {
                        assert(mfix[y].parent == m0[y].parent);
                    }
                }
                assert(m0[y].parent == Some(q));
                assert(m0.contains_key(q));
                assert(m0[q].children@.contains(y));
                assert(!coll.contains(q)) by {
                    if coll.contains(q) {
                        let j0 = choose|j0: int|
                            0 <= j0 < m0[q].children@.len() && m0[q].children@[j0] == y;
                        assert(coll.contains(m0[q].children@[j0]));
                    }
                }
                assert(m.contains_key(q));
                if Some(q) == ft {
                    assert(m[q].children@.contains(y)) by {
                        assert(y != key.raw);
                        assert(m[q].children@ == mfix[q].children@);
                    }
                } else {
                    assert(m[q] == m0[q]);
                }
            }
        }
        // order membership, both directions
        assert forall|y: u64| #[trigger] m.contains_key(y)
            implies self.order@.contains(y) by {
            assert(m0.contains_key(y));
            assert(pre.order@.contains(y));
        }
        assert forall|j: int| 0 <= j < self.order@.len()
            implies m.contains_key(#[trigger] self.order@[j]) by {
            let y = self.order@[j];
            assert(self.order@.contains(y));
            assert(pre.order@.contains(y) && !coll.contains(y));
            assert(m0.contains_key(y));
        }
        // roots, both directions
        assert forall|y: u64| m.contains_key(y) && m[y].parent is None
            implies self.roots@.contains(y) by {
            assert(m[y] == mfix[y]);
            assert(m[y].parent == m0[y].parent) by {
                if Some(y) == ft {
                    assert(mfix[y].parent == m0[y].parent);
                }
            }
            assert(m0[y].parent is None);
            assert(pre.roots@.contains(y));
            if popt is None {
                assert(y != key.raw);
            }
        }
        assert forall|j: int| 0 <= j < self.roots@.len() implies {
            &&& m.contains_key(#[trigger] self.roots@[j])
            &&& m[self.roots@[j]].parent is None
        } by {
            let y = self.roots@[j];
            assert(self.roots@.contains(y));
            let in_old = if popt is None {
                pre.roots@.contains(y) && y != key.raw
            } else {
                pre.roots@.contains(y)
            };
            assert(in_old);
            assert(pre.roots@.contains(y));
            assert(m0.contains_key(y) && m0[y].parent is None);
            assert(y != key.raw) by {
                if popt is Some {
                    assert(m0[key.raw].parent is Some);
                }
            }
            assert(!coll.contains(y)) by {
                if coll.contains(y) {
                    assert(m0[y].parent is Some);
                }
            }
            assert(m.contains_key(y));
            assert(m[y].parent == m0[y].parent) by {
                if Some(y) == ft {
                    assert(mfix[y].parent == m0[y].parent);
                }
            }
        }
        // public clauses over wrapped keys
        assert forall|k2: TreeKey| #[trigger] self.has(k2)
            implies (pre.has(k2) && !pre.in_subtree(key, k2)) by {
            assert(!coll.contains(k2.raw));
        }
        assert forall|k2: TreeKey| pre.has(k2) && !pre.in_subtree(key, k2)
            implies #[trigger] self.has(k2) by {
            if coll.contains(k2.raw) {
                assert(pre.in_subtree(key, TreeKey { raw: k2.raw }));
            }
        }
        if popt is None {
            lemma_wrap_no_dup(self.roots@);
            assert forall|x: TreeKey|
                #[trigger] self.roots_list().contains(x)
                    <==> (pre.roots_list().contains(x) && x != key) by {
                lemma_wrap_contains(self.roots@, x);
                lemma_wrap_contains(pre.roots@, x);
            }
        }
        assert forall|p: TreeKey|
            pre.parent_of(key) == Some(p) && !pre.in_subtree(key, p) implies {
                &&& (#[trigger] self.children_of(p)).no_duplicates()
                &&& forall|x: TreeKey|
                    #[trigger] self.children_of(p).contains(x)
                        <==> (pre.children_of(p).contains(x) && x != key)
                &&& self.val_of(p) == pre.val_of(p)
                &&& self.parent_of(p) == pre.parent_of(p)
                &&& self.node_borrows(p) == pre.node_borrows(p)
                &&& self.node_excl(p) == pre.node_excl(p)
            } by {
            assert(popt == Some(p.raw));
            assert(!coll.contains(p.raw));
            assert(ft == Some(p.raw));
            assert(m.contains_key(p.raw));
            assert(m[p.raw] == mfix[p.raw]);
            lemma_wrap_no_dup(m[p.raw].children@);
            assert forall|x: TreeKey|
                #[trigger] self.children_of(p).contains(x)
                    <==> (pre.children_of(p).contains(x) && x != key) by {
                lemma_wrap_contains(m[p.raw].children@, x);
                lemma_wrap_contains(m0[p.raw].children@, x);
            }
        }
        assert forall|k2: TreeKey|
            pre.has(k2) && !pre.in_subtree(key, k2) && pre.parent_of(key) != Some(k2)
            implies #[trigger] Tree::node_untouched(pre, *self, k2) by {
            assert(!coll.contains(k2.raw));
            assert(m.contains_key(k2.raw));
            assert(mfix.contains_key(k2.raw));
            assert(Some(k2.raw) != ft) by {
                if popt == Some(k2.raw) {
                    assert(pre.parent_of(key) == Some(TreeKey { raw: k2.raw }));
                }
            }
            assert(m[k2.raw] == mfix[k2.raw]);
            assert(m[k2.raw] == m0[k2.raw]);
        }
    }

    /// The relation bookkeeping of a well-formed tree is mutually
    /// consistent: a node is some node's child exactly when its parent
    /// link says so, the roots are exactly the live nodes without a
    /// parent, and the key and root lists are duplicate-free.
    pub proof fn lemma_relations_consistent(&self)
        requires
            self.wf(),
        ensures
            forall|k: TreeKey|
                self.has(k) && (#[trigger] self.parent_of(k)) is Some ==> {
                    &&& self.has(self.parent_of(k)->Some_0)
                    &&& self.children_of(self.parent_of(k)->Some_0).contains(k)
                },
            forall|p: TreeKey, j: int|
                self.has(p) && 0 <= j < self.children_of(p).len() ==> {
                    &&& self.has(#[trigger] self.children_of(p)[j])
                    &&& self.parent_of(self.children_of(p)[j]) == Some(p)
                },
            forall|p: TreeKey|
                self.has(p) ==> (#[trigger] self.children_of(p)).no_duplicates(),
            forall|x: TreeKey|
                #[trigger] self.roots_list().contains(x)
                    <==> (self.has(x) && self.parent_of(x) is None),
            forall|x: TreeKey| #[trigger] self.key_list().contains(x) <==> self.has(x),
            self.key_list().no_duplicates(),
            self.roots_list().no_duplicates(),
            self.key_list().len() == self.spec_len(),
    {
        let m = self.nodes@;
        assert forall|k: TreeKey|
            self.has(k) && (#[trigger] self.parent_of(k)) is Some implies {
                &&& self.has(self.parent_of(k)->Some_0)
                &&& self.children_of(self.parent_of(k)->Some_0).contains(k)
            } by {
            let p = self.parent_of(k)->Some_0;
            assert(node_ok(m, k.raw));
            assert(m[k.raw].parent == Some(p.raw));
            assert(m[p.raw].children@.contains(k.raw));
            lemma_wrap_contains(m[p.raw].children@, k);
        }
        assert forall|p: TreeKey, j: int|
            self.has(p) && 0 <= j < self.children_of(p).len() implies {
                &&& self.has(#[trigger] self.children_of(p)[j])
                &&& self.parent_of(self.children_of(p)[j]) == Some(p)
            } by {
            assert(node_ok(m, p.raw));
            assert(self.children_of(p)[j] == TreeKey { raw: m[p.raw].children@[j] });
        }
        assert forall|p: TreeKey| self.has(p)
            implies (#[trigger] self.children_of(p)).no_duplicates() by {
            assert(node_ok(m, p.raw));
            lemma_wrap_no_dup(m[p.raw].children@);
        }
        assert forall|x: TreeKey| #[trigger] self.roots_list().contains(x)
            implies (self.has(x) && self.parent_of(x) is None) by {
            lemma_wrap_contains(self.roots@, x);
            let j = choose|j: int| 0 <= j < self.roots@.len() && self.roots@[j] == x.raw;
        }
        assert forall|x: TreeKey| self.has(x) && self.parent_of(x) is None
            implies #[trigger] self.roots_list().contains(x) by {
            assert(self.roots@.contains(x.raw));
            lemma_wrap_contains(self.roots@, x);
        }
        assert forall|x: TreeKey| #[trigger] self.key_list().contains(x)
            implies self.has(x) by {
            lemma_wrap_contains(self.order@, x);
            let j = choose|j: int| 0 <= j < self.order@.len() && self.order@[j] == x.raw;
        }
        assert forall|x: TreeKey| self.has(x) implies #[trigger] self.key_list().contains(x) by {
            assert(self.order@.contains(x.raw));
            lemma_wrap_contains(self.order@, x);
        }
        lemma_wrap_no_dup(self.order@);
        lemma_wrap_no_dup(self.roots@);
    }

    /// The keys of the roots, in order: roots stand in the order in which
    /// they last became roots, so a node detached into a root joins at
    /// the end.
    pub fn root_keys(&self) -> (r: Vec<TreeKey>)
        requires
            self.wf(),
        ensures
            r@ == self.roots_list(),
    {
        to_key_vec(&self.roots)
    }

    /// The keys of all nodes, in insertion order.
    pub fn unordered_keys(&self) -> (r: Vec<TreeKey>)
        requires
            self.wf(),
        ensures
            r@ == self.key_list(),
    {
        to_key_vec(&self.order)
    }

    /// Take a shared borrow of every node in `keys`, one attempt per key,
    /// in order. Each attempt succeeds exactly as a lone `try_get` on the
    /// starting state would, provided the keys are live and distinct.
    fn borrow_each(&mut self, keys: &Vec<TreeKey>) -> (out: Vec<Result<NodeRef, Error>>)
        requires
            old(self).wf(),
            keys@.no_duplicates(),
            forall|j: int| 0 <= j < keys@.len() ==> old(self).has(#[trigger] keys@[j]),
        ensures
            final(self).wf(),
            out@.len() == keys@.len(),
            forall|j: int| 0 <= j < out@.len() ==> {
                &&& ((#[trigger] out@[j]) is Ok <==> old(self).shared_grant(keys@[j]))
                &&& (out@[j] matches Ok(nr) ==> nr.spec_key() == keys@[j])
                &&& (out@[j] is Err ==> out@[j] == Err::<NodeRef, Error>(Error::CantBorrow))
            },
            final(self).key_list() == old(self).key_list(),
            final(self).roots_list() == old(self).roots_list(),
            final(self).slots() == old(self).slots(),
            forall|k2: TreeKey| #[trigger] final(self).has(k2) <==> old(self).has(k2),
            forall|k2: TreeKey|
                old(self).has(k2) ==> {
                    &&& final(self).val_of(k2) == old(self).val_of(k2)
                    &&& final(self).parent_of(k2) == old(self).parent_of(k2)
                    &&& final(self).children_of(k2) == old(self).children_of(k2)
                    &&& final(self).node_excl(k2) == old(self).node_excl(k2)
                },
            forall|k2: TreeKey|
                old(self).has(k2) && !keys@.contains(k2)
                    ==> final(self).node_borrows(k2) == old(self).node_borrows(k2),
            forall|j: int|
                0 <= j < keys@.len() ==> final(self).node_borrows(#[trigger] keys@[j])
                    == if out@[j] is Ok {
                    old(self).node_borrows(keys@[j]) + 1
                } else {
                    old(self).node_borrows(keys@[j])
                },
    {
        let ghost pre = *old(self);
        let mut out: Vec<Result<NodeRef, Error>> = Vec::new();
        let mut i: usize = 0;
        while i < keys.len()
            invariant
                0 <= i <= keys@.len(),
                pre.wf(),
                keys@.no_duplicates(),
                forall|j: int| 0 <= j < keys@.len() ==> pre.has(#[trigger] keys@[j]),
                self.wf(),
                out@.len() == i,
                forall|j: int| 0 <= j < i ==> {
                    &&& ((#[trigger] out@[j]) is Ok <==> pre.shared_grant(keys@[j]))
                    &&& (out@[j] matches Ok(nr) ==> nr.spec_key() == keys@[j])
                    &&& (out@[j] is Err ==> out@[j] == Err::<NodeRef, Error>(
                        Error::CantBorrow,
                    ))
                },
                self.key_list() == pre.key_list(),
                self.roots_list() == pre.roots_list(),
                self.slots() == pre.slots(),
                forall|k2: TreeKey| #[trigger] self.has(k2) <==> pre.has(k2),
                forall|k2: TreeKey|
                    pre.has(k2) ==> {
                        &&& self.val_of(k2) == pre.val_of(k2)
                        &&& self.parent_of(k2) == pre.parent_of(k2)
                        &&& self.children_of(k2) == pre.children_of(k2)
                        &&& self.node_excl(k2) == pre.node_excl(k2)
                    },
                forall|k2: TreeKey|
                    pre.has(k2) && !keys@.subrange(0, i as int).contains(k2)
                        ==> self.node_borrows(k2) == pre.node_borrows(k2),
                forall|j: int|
                    0 <= j < i ==> self.node_borrows(#[trigger] keys@[j])
                        == if out@[j] is Ok {
                        pre.node_borrows(keys@[j]) + 1
                    } else {
                        pre.node_borrows(keys@[j])
                    },
            decreases keys@.len() - i,
        {
            let k = keys[i];
            proof {
                assert(!keys@.subrange(0, i as int).contains(k)) by {
                    if keys@.subrange(0, i as int).contains(k) {
                        let j = choose|j: int|
                            0 <= j < i && keys@.subrange(0, i as int)[j] == k;
                        assert(keys@[j] == keys@[i as int]);
                    }
                }
                assert(self.node_borrows(k) == pre.node_borrows(k));
                assert(self.has(k));
            }
            let ghost cur = *self;
            let res = self.try_get(k);
            proof {
                assert(!(res is Err && res == Err::<NodeRef, Error>(Error::Missing)));
                assert(cur.shared_grant(k) == pre.shared_grant(k));
                assert(keys@.subrange(0, i + 1) =~= keys@.subrange(0, i as int).push(k));
                assert(keys@.subrange(0, i + 1)[i as int] == k);
                assert forall|k2: TreeKey| pre.has(k2) implies {
                    &&& self.val_of(k2) == pre.val_of(k2)
                    &&& self.parent_of(k2) == pre.parent_of(k2)
                    &&& self.children_of(k2) == pre.children_of(k2)
                    &&& self.node_excl(k2) == pre.node_excl(k2)
                } by {
                    if res is Ok && k2 != k {
                        assert(cur.has(k2));
                        assert(Tree::node_untouched(cur, *self, k2));
                    }
                }
                assert forall|k2: TreeKey|
                    pre.has(k2) && !keys@.subrange(0, i + 1).contains(k2)
                    implies self.node_borrows(k2) == pre.node_borrows(k2) by {
                    assert(keys@.subrange(0, i + 1).contains(k));
                    assert(k2 != k);
                    if res is Ok {
                        assert(Tree::node_untouched(cur, *self, k2));
                    }
                }
                assert forall|j: int|
                    0 <= j < i + 1 implies self.node_borrows(#[trigger] keys@[j])
                        == if out@.push(res)[j] is Ok {
                        pre.node_borrows(keys@[j]) + 1
                    } else {
                        pre.node_borrows(keys@[j])
                    } by {
                    if j < i {
                        assert(keys@[j] != k);
                        if res is Ok {
                            assert(Tree::node_untouched(cur, *self, keys@[j]));
                        }
                        assert(out@.push(res)[j] == out@[j]);
                    } else {
                        assert(out@.push(res)[j] == res);
                    }
                }
            }
            out.push(res);
            i = i + 1;
        }
        proof {
            assert(keys@.subrange(0, keys@.len() as int) =~= keys@);
        }
        out
    }

    /// Take the exclusive borrow of every node in `keys`, one attempt per
    /// key, in order. Each attempt succeeds exactly as a lone
    /// `try_get_mut` on the starting state would, provided the keys are
    /// live and distinct.
    fn borrow_each_mut(&mut self, keys: &Vec<TreeKey>) -> (out: Vec<Result<NodeRefMut, Error>>)
        requires
            old(self).wf(),
            keys@.no_duplicates(),
            forall|j: int| 0 <= j < keys@.len() ==> old(self).has(#[trigger] keys@[j]),
        ensures
            final(self).wf(),
            out@.len() == keys@.len(),
            forall|j: int| 0 <= j < out@.len() ==> {
                &&& ((#[trigger] out@[j]) is Ok <==> old(self).excl_grant(keys@[j]))
                &&& (out@[j] matches Ok(nm) ==> nm.spec_key() == keys@[j])
                &&& (out@[j] is Err ==> out@[j] == Err::<NodeRefMut, Error>(Error::CantBorrow))
            },
            final(self).key_list() == old(self).key_list(),
            final(self).roots_list() == old(self).roots_list(),
            final(self).slots() == old(self).slots(),
            forall|k2: TreeKey| #[trigger] final(self).has(k2) <==> old(self).has(k2),
            forall|k2: TreeKey|
                old(self).has(k2) ==> {
                    &&& final(self).val_of(k2) == old(self).val_of(k2)
                    &&& final(self).parent_of(k2) == old(self).parent_of(k2)
                    &&& final(self).children_of(k2) == old(self).children_of(k2)
                },
            forall|k2: TreeKey|
                old(self).has(k2) && !keys@.contains(k2) ==> {
                    &&& final(self).node_borrows(k2) == old(self).node_borrows(k2)
                    &&& final(self).node_excl(k2) == old(self).node_excl(k2)
                },
            forall|j: int|
                0 <= j < keys@.len() ==> {
                    &&& final(self).node_excl(#[trigger] keys@[j]) == if out@[j] is Ok {
                        true
                    } else {
                        old(self).node_excl(keys@[j])
                    }
                    &&& final(self).node_borrows(keys@[j]) == if out@[j] is Ok {
                        0nat
                    } else {
                        old(self).node_borrows(keys@[j])
                    }
                },
    {
        let ghost pre = *old(self);
        let mut out: Vec<Result<NodeRefMut, Error>> = Vec::new();
        let mut i: usize = 0;
        while i < keys.len()
            invariant
                0 <= i <= keys@.len(),
                pre.wf(),
                keys@.no_duplicates(),
                forall|j: int| 0 <= j < keys@.len() ==> pre.has(#[trigger] keys@[j]),
                self.wf(),
                out@.len() == i,
                forall|j: int| 0 <= j < i ==> {
                    &&& ((#[trigger] out@[j]) is Ok <==> pre.excl_grant(keys@[j]))
                    &&& (out@[j] matches Ok(nm) ==> nm.spec_key() == keys@[j])
                    &&& (out@[j] is Err ==> out@[j] == Err::<NodeRefMut, Error>(
                        Error::CantBorrow,
                    ))
                },
                self.key_list() == pre.key_list(),
                self.roots_list() == pre.roots_list(),
                self.slots() == pre.slots(),
                forall|k2: TreeKey| #[trigger] self.has(k2) <==> pre.has(k2),
                forall|k2: TreeKey|
                    pre.has(k2) ==> {
                        &&& self.val_of(k2) == pre.val_of(k2)
                        &&& self.parent_of(k2) == pre.parent_of(k2)
                        &&& self.children_of(k2) == pre.children_of(k2)
                    },
                forall|k2: TreeKey|
                    pre.has(k2) && !keys@.subrange(0, i as int).contains(k2) ==> {
                        &&& self.node_borrows(k2) == pre.node_borrows(k2)
                        &&& self.node_excl(k2) == pre.node_excl(k2)
                    },
                forall|j: int|
                    0 <= j < i ==> {
                        &&& self.node_excl(#[trigger] keys@[j]) == if out@[j] is Ok {
                            true
                        } else {
                            pre.node_excl(keys@[j])
                        }
                        &&& self.node_borrows(keys@[j]) == if out@[j] is Ok {
                            0nat
                        } else {
                            pre.node_borrows(keys@[j])
                        }
                    },
            decreases keys@.len() - i,
        {
            let k = keys[i];
            proof {
                assert(!keys@.subrange(0, i as int).contains(k)) by {
                    if keys@.subrange(0, i as int).contains(k) {
                        let j = choose|j: int|
                            0 <= j < i && keys@.subrange(0, i as int)[j] == k;
                        assert(keys@[j] == keys@[i as int]);
                    }
                }
                assert(self.node_borrows(k) == pre.node_borrows(k));
                assert(self.node_excl(k) == pre.node_excl(k));
                assert(self.has(k));
            }
            let ghost cur = *self;
            let res = self.try_get_mut(k);
            proof {
                assert(!(res is Err && res == Err::<NodeRefMut, Error>(Error::Missing)));
                assert(cur.excl_grant(k) == pre.excl_grant(k));
                assert(keys@.subrange(0, i + 1) =~= keys@.subrange(0, i as int).push(k));
                assert(keys@.subrange(0, i + 1)[i as int] == k);
                assert forall|k2: TreeKey| pre.has(k2) implies {
                    &&& self.val_of(k2) == pre.val_of(k2)
                    &&& self.parent_of(k2) == pre.parent_of(k2)
                    &&& self.children_of(k2) == pre.children_of(k2)
                } by {
                    if res is Ok && k2 != k {
                        assert(cur.has(k2));
                        assert(Tree::node_untouched(cur, *self, k2));
                    }
                }
                assert forall|k2: TreeKey|
                    pre.has(k2) && !keys@.subrange(0, i + 1).contains(k2) implies {
                        &&& self.node_borrows(k2) == pre.node_borrows(k2)
                        &&& self.node_excl(k2) == pre.node_excl(k2)
                    } by {
                    assert(keys@.subrange(0, i + 1).contains(k));
                    assert(k2 != k);
                    if res is Ok {
                        assert(Tree::node_untouched(cur, *self, k2));
                    }
                }
                assert forall|j: int|
                    0 <= j < i + 1 implies {
                        &&& self.node_excl(#[trigger] keys@[j]) == if out@.push(res)[j] is Ok {
                            true
                        } else {
                            pre.node_excl(keys@[j])
                        }
                        &&& self.node_borrows(keys@[j]) == if out@.push(res)[j] is Ok {
                            0nat
                        } else {
                            pre.node_borrows(keys@[j])
                        }
                    } by {
                    if j < i {
                        assert(keys@[j] != k);
                        if res is Ok {
                            assert(Tree::node_untouched(cur, *self, keys@[j]));
                        }
                        assert(out@.push(res)[j] == out@[j]);
                    } else {
                        assert(out@.push(res)[j] == res);
                    }
                }
            }
            out.push(res);
            i = i + 1;
        }
        proof {
            assert(keys@.subrange(0, keys@.len() as int) =~= keys@);
        }
        out
    }

    /// Take the exclusive borrow of every root, in root order. A root with
    /// any outstanding borrow contributes `CantBorrow` instead of a
    /// receipt.
    pub fn roots_mut(&mut self) -> (out: Vec<Result<NodeRefMut, Error>>)
        requires
            old(self).wf(),
        ensures
            final(self).wf(),
            out@.len() == old(self).roots_list().len(),
            forall|j: int| 0 <= j < out@.len() ==> {
                &&& ((#[trigger] out@[j]) is Ok <==> old(self).excl_grant(
                    old(self).roots_list()[j],
                ))
                &&& (out@[j] matches Ok(nm) ==> nm.spec_key() == old(self).roots_list()[j])
                &&& (out@[j] is Err ==> out@[j] == Err::<NodeRefMut, Error>(Error::CantBorrow))
            },
            final(self).key_list() == old(self).key_list(),
            final(self).roots_list() == old(self).roots_list(),
            final(self).slots() == old(self).slots(),
            forall|k2: TreeKey| #[trigger] final(self).has(k2) <==> old(self).has(k2),
            forall|k2: TreeKey|
                old(self).has(k2) ==> {
                    &&& final(self).val_of(k2) == old(self).val_of(k2)
                    &&& final(self).parent_of(k2) == old(self).parent_of(k2)
                    &&& final(self).children_of(k2) == old(self).children_of(k2)
                },
    {
        let keys = self.root_keys();
        proof {
            lemma_wrap_no_dup(self.roots@);
            assert forall|j: int| 0 <= j < keys@.len()
                implies self.has(#[trigger] keys@[j]) by {
                assert(keys@[j] == TreeKey { raw: self.roots@[j] });
            }
        }
        self.borrow_each_mut(&keys)
    }

    /// Take the exclusive borrow of every node, in insertion order. A node
    /// with any outstanding borrow contributes `CantBorrow` instead of a
    /// receipt.
    pub fn unordered_iter_mut(&mut self) -> (out: Vec<Result<NodeRefMut, Error>>)
        requires
            old(self).wf(),
        ensures
            final(self).wf(),
            out@.len() == old(self).key_list().len(),
            forall|j: int| 0 <= j < out@.len() ==> {
                &&& ((#[trigger] out@[j]) is Ok <==> old(self).excl_grant(
                    old(self).key_list()[j],
                ))
                &&& (out@[j] matches Ok(nm) ==> nm.spec_key() == old(self).key_list()[j])
                &&& (out@[j] is Err ==> out@[j] == Err::<NodeRefMut, Error>(Error::CantBorrow))
            },
            final(self).key_list() == old(self).key_list(),
            final(self).roots_list() == old(self).roots_list(),
            final(self).slots() == old(self).slots(),
            forall|k2: TreeKey| #[trigger] final(self).has(k2) <==> old(self).has(k2),
            forall|k2: TreeKey|
                old(self).has(k2) ==> {
                    &&& final(self).val_of(k2) == old(self).val_of(k2)
                    &&& final(self).parent_of(k2) == old(self).parent_of(k2)
                    &&& final(self).children_of(k2) == old(self).children_of(k2)
                },
    {
        let keys = self.unordered_keys();
        proof {
            lemma_wrap_no_dup(self.order@);
            assert forall|j: int| 0 <= j < keys@.len()
                implies self.has(#[trigger] keys@[j]) by {
                assert(keys@[j] == TreeKey { raw: self.order@[j] });
            }
        }
        self.borrow_each_mut(&keys)
    }

    /// Take a shared borrow of every root, in root order. A root that is
    /// exclusively borrowed contributes `CantBorrow` instead of a receipt.
    pub fn roots(&mut self) -> (out: Vec<Result<NodeRef, Error>>)
        requires
            old(self).wf(),
        ensures
            final(self).wf(),
            out@.len() == old(self).roots_list().len(),
            forall|j: int| 0 <= j < out@.len() ==> {
                &&& ((#[trigger] out@[j]) is Ok <==> old(self).shared_grant(
                    old(self).roots_list()[j],
                ))
                &&& (out@[j] matches Ok(nr) ==> nr.spec_key() == old(self).roots_list()[j])
                &&& (out@[j] is Err ==> out@[j] == Err::<NodeRef, Error>(Error::CantBorrow))
            },
            final(self).key_list() == old(self).key_list(),
            final(self).roots_list() == old(self).roots_list(),
            final(self).slots() == old(self).slots(),
            forall|k2: TreeKey| #[trigger] final(self).has(k2) <==> old(self).has(k2),
            forall|k2: TreeKey|
                old(self).has(k2) ==> {
                    &&& final(self).val_of(k2) == old(self).val_of(k2)
                    &&& final(self).parent_of(k2) == old(self).parent_of(k2)
                    &&& final(self).children_of(k2) == old(self).children_of(k2)
                    &&& final(self).node_excl(k2) == old(self).node_excl(k2)
                },
    {
        let keys = self.root_keys();
        proof {
            lemma_wrap_no_dup(self.roots@);
            assert forall|j: int| 0 <= j < keys@.len()
                implies self.has(#[trigger] keys@[j]) by {
                assert(keys@[j] == TreeKey { raw: self.roots@[j] });
            }
        }
        self.borrow_each(&keys)
    }

    /// Take a shared borrow of every node, in insertion order. A node that
    /// is exclusively borrowed contributes `CantBorrow` instead of a
    /// receipt.
    pub fn unordered_iter(&mut self) -> (out: Vec<Result<NodeRef, Error>>)
        requires
            old(self).wf(),
        ensures
            final(self).wf(),
            out@.len() == old(self).key_list().len(),
            forall|j: int| 0 <= j < out@.len() ==> {
                &&& ((#[trigger] out@[j]) is Ok <==> old(self).shared_grant(
                    old(self).key_list()[j],
                ))
                &&& (out@[j] matches Ok(nr) ==> nr.spec_key() == old(self).key_list()[j])
                &&& (out@[j] is Err ==> out@[j] == Err::<NodeRef, Error>(Error::CantBorrow))
            },
            final(self).key_list() == old(self).key_list(),
            final(self).roots_list() == old(self).roots_list(),
            final(self).slots() == old(self).slots(),
            forall|k2: TreeKey| #[trigger] final(self).has(k2) <==> old(self).has(k2),
            forall|k2: TreeKey|
                old(self).has(k2) ==> {
                    &&& final(self).val_of(k2) == old(self).val_of(k2)
                    &&& final(self).parent_of(k2) == old(self).parent_of(k2)
                    &&& final(self).children_of(k2) == old(self).children_of(k2)
                    &&& final(self).node_excl(k2) == old(self).node_excl(k2)
                },
    {
        let keys = self.unordered_keys();
        proof {
            lemma_wrap_no_dup(self.order@);
            assert forall|j: int| 0 <= j < keys@.len()
                implies self.has(#[trigger] keys@[j]) by {
                assert(keys@[j] == TreeKey { raw: self.order@[j] });
            }
        }
        self.borrow_each(&keys)
    }

    /// The parent key of a live node, if it has a parent.
    pub fn parent_key_of(&self, key: TreeKey) -> (r: Option<TreeKey>)
        requires
            self.wf(),
        ensures
            self.has(key) ==> r == self.parent_of(key),
            !self.has(key) ==> r is None,
    {
        match self.nodes.get(&key.raw) {
            Some(rec) => match rec.parent {
                Some(p) => Some(TreeKey { raw: p }),
                None => None,
            },
            None => None,
        }
    }

    /// The child keys of a live node, in attachment order; empty for a
    /// dead key.
    pub fn child_keys_of(&self, key: TreeKey) -> (r: Vec<TreeKey>)
        requires
            self.wf(),
        ensures
            self.has(key) ==> r@ == self.children_of(key),
            !self.has(key) ==> r@ == Seq::<TreeKey>::empty(),
    {
        match self.nodes.get(&key.raw) {
            Some(rec) => to_key_vec(&rec.children),
            None => {
                let r: Vec<TreeKey> = Vec::new();
                proof {
                    assert(r@ =~= Seq::<TreeKey>::empty());
                }
                r
            }
        }
    }
}

} // verus!
