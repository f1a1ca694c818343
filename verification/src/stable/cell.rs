//! A stable cell: one owned value guarded by the borrow state machine.
//!
//! The cell is both the storage and the arbiter. Shared and exclusive
//! borrows are granted and released explicitly; each grant hands back a
//! receipt (`StableRef` / `StableMut`) and each release consumes one. The
//! owning handle may be dropped (`drop_owner`) while borrows are still
//! outstanding: the value is then kept alive until the last release, which
//! hands it out — the model's way of freeing the storage exactly once.

use vstd::prelude::*;
use crate::stable::util::BorrowState;
use crate::stable::util::max_count;

verus! {

/// Receipt for one outstanding shared borrow of a cell.
pub struct StableRef;

/// Receipt for the outstanding exclusive borrow of a cell.
pub struct StableMut;

/// One owned value plus the packed borrow word that guards it.
pub struct StableCell<T> {
    borrow: BorrowState,
    value: Option<T>,
}

impl<T> StableCell<T> {
    /// Whether the storage has already been freed (the value handed out).
    pub closed spec fn freed(self) -> bool {
        self.value is None
    }

    /// The stored value; meaningful only while the cell is not freed.
    pub closed spec fn val(self) -> T {
        self.value->Some_0
    }

    /// Number of outstanding shared borrows.
    pub closed spec fn count(self) -> nat {
        self.borrow.count()
    }

    /// Whether an exclusive borrow is outstanding.
    pub closed spec fn excl(self) -> bool {
        self.borrow.excl()
    }

    /// Whether the owner has been dropped while borrows remained.
    pub closed spec fn pend(self) -> bool {
        self.borrow.pend()
    }

    /// No borrows are outstanding and the owner is still live.
    pub open spec fn idle(self) -> bool {
        self.count() == 0 && !self.excl() && !self.pend()
    }

    /// A shared borrow will be granted in this state.
    pub open spec fn shared_grant(self) -> bool {
        self.idle() || (0 < self.count() < max_count())
    }

    /// An exclusive borrow will be granted in this state.
    pub open spec fn excl_grant(self) -> bool {
        self.idle()
    }

    /// Releasing a shared borrow from this state frees the storage: the
    /// owner is gone and exactly this one borrow remains.
    pub open spec fn last_ref_frees(self) -> bool {
        self.pend() && self.count() == 1
    }

    /// Releasing the exclusive borrow from this state frees the storage.
    pub open spec fn last_mut_frees(self) -> bool {
        self.pend() && self.excl() && self.count() == 0
    }

    /// Structural invariant: the two access modes exclude each other, and a
    /// freed cell records the owner as gone with no borrows outstanding, so
    /// that no further access can ever be granted.
    pub open spec fn wf(self) -> bool {
        &&& !(self.excl() && self.count() > 0)
        &&& self.freed() ==> (self.count() == 0 && !self.excl() && self.pend())
    }

    /// Allocate a fresh cell holding `val`, with no borrows outstanding.
    pub fn new(val: T) -> (c: StableCell<T>)
        ensures
            c.wf(),
            !c.freed(),
            c.idle(),
            c.val() == val,
    {
        StableCell { borrow: BorrowState::new(), value: Some(val) }
    }

    /// Construction from a value that coerces into the stored type. With
    /// dynamically sized values out of scope here, the coercion is the
    /// identity and this coincides with `new`.
    pub fn new_from(val: T) -> (c: StableCell<T>)
        ensures
            c.wf(),
            !c.freed(),
            c.idle(),
            c.val() == val,
    {
        StableCell::new(val)
    }

    /// Read the stored value.
    pub fn value(&self) -> (r: &T)
        requires
            self.wf(),
            !self.freed(),
        ensures
            *r == self.val(),
    {
        self.value.as_ref().unwrap()
    }

    /// Replace the stored value; only the holder of the exclusive borrow may
    /// do so.
    pub fn set_value(&mut self, val: T)
        requires
            old(self).wf(),
            old(self).excl(),
        ensures
            final(self).wf(),
            !final(self).freed(),
            final(self).val() == val,
            final(self).count() == old(self).count(),
            final(self).excl() == old(self).excl(),
            final(self).pend() == old(self).pend(),
    {
        self.value = Some(val);
    }

    /// Whether a shared borrow would be granted right now.
    pub fn can_borrow(&self) -> (r: bool)
        requires
            self.wf(),
        ensures
            r == self.shared_grant(),
    {
        self.borrow.incr_ref().is_some()
    }

    /// Whether the exclusive borrow would be granted right now.
    pub fn can_borrow_mut(&self) -> (r: bool)
        requires
            self.wf(),
        ensures
            r == self.excl_grant(),
    {
        self.borrow.incr_mut().is_some()
    }

    /// Whether the exclusive borrow is currently outstanding.
    pub fn exclusively_borrowed(&self) -> (r: bool)
        requires
            self.wf(),
        ensures
            r == self.excl(),
    {
        self.borrow.is_borrow()
    }

    /// Attempt to take one shared borrow. Succeeds exactly when no
    /// exclusive borrow is outstanding, the owner is live or other shared
    /// borrows already exist, and the count has room; the cell is otherwise
    /// left unchanged.
    pub fn try_borrow(&mut self) -> (r: Option<StableRef>)
        requires
            old(self).wf(),
        ensures
            final(self).wf(),
            r is Some <==> old(self).shared_grant(),
            r is Some ==> {
                &&& final(self).count() == old(self).count() + 1
                &&& final(self).excl() == old(self).excl()
                &&& final(self).pend() == old(self).pend()
                &&& final(self).freed() == old(self).freed()
                &&& final(self).val() == old(self).val()
            },
            r is None ==> *final(self) == *old(self),
    {
        match self.borrow.incr_ref() {
            Some(new_state) => {
                self.borrow = new_state;
                Some(StableRef)
            }
            None => None,
        }
    }

    /// Attempt to take the exclusive borrow. Succeeds exactly when the cell
    /// is idle; the cell is otherwise left unchanged.
    pub fn try_borrow_mut(&mut self) -> (r: Option<StableMut>)
        requires
            old(self).wf(),
        ensures
            final(self).wf(),
            r is Some <==> old(self).excl_grant(),
            r is Some ==> {
                &&& final(self).count() == 0
                &&& final(self).excl()
                &&& !final(self).pend()
                &&& final(self).freed() == old(self).freed()
                &&& final(self).val() == old(self).val()
            },
            r is None ==> *final(self) == *old(self),
    {
        match self.borrow.incr_mut() {
            Some(new_state) => {
                self.borrow = new_state;
                Some(StableMut)
            }
            None => None,
        }
    }

    /// Release one shared borrow. If the owner is already gone and this was
    /// the last borrow, the storage is freed and the value handed out;
    /// deallocation can happen through no other shared release.
    pub fn release_ref(&mut self, r: StableRef) -> (out: Option<T>)
        requires
            old(self).wf(),
        ensures
            final(self).wf(),
            out is Some <==> old(self).last_ref_frees(),
            out matches Some(v) ==> v == old(self).val() && final(self).freed(),
            old(self).count() == 1 && !old(self).pend() ==> {
                &&& final(self).idle()
                &&& !final(self).freed()
                &&& final(self).val() == old(self).val()
            },
            old(self).count() > 1 ==> {
                &&& final(self).count() == old(self).count() - 1
                &&& final(self).excl() == old(self).excl()
                &&& final(self).pend() == old(self).pend()
                &&& !final(self).freed()
                &&& final(self).val() == old(self).val()
            },
            old(self).count() == 0 ==> *final(self) == *old(self),
    {
        let _ = r;
        let (new_state, should_free) = self.borrow.decr_ref();
        self.borrow = new_state;
        if should_free {
            self.value.take()
        } else {
            None
        }
    }

    /// Release the exclusive borrow. If the owner is already gone, the
    /// storage is freed and the value handed out.
    pub fn release_mut(&mut self, m: StableMut) -> (out: Option<T>)
        requires
            old(self).wf(),
        ensures
            final(self).wf(),
            out is Some <==> old(self).last_mut_frees(),
            out matches Some(v) ==> v == old(self).val() && final(self).freed(),
            old(self).excl() && old(self).count() == 0 && !old(self).pend() ==> {
                &&& final(self).idle()
                &&& !final(self).freed()
                &&& final(self).val() == old(self).val()
            },
            !(old(self).excl() && old(self).count() == 0) ==> *final(self) == *old(self),
    {
        let _ = m;
        let (new_state, should_free) = self.borrow.decr_mut();
        self.borrow = new_state;
        if should_free {
            self.value.take()
        } else {
            None
        }
    }

    /// Clone the stored value into a fresh cell. The copy is made under a
    /// shared borrow taken and released around the call, so cloning fails —
    /// returning nothing, the fallible form of a clone — exactly when a
    /// shared borrow would be refused, an exclusively borrowed cell in
    /// particular.
    pub fn try_clone(&mut self) -> (out: Option<StableCell<T>>) where T: Clone
        requires
            old(self).wf(),
        ensures
            final(self).wf(),
            final(self).freed() == old(self).freed(),
            final(self).val() == old(self).val(),
            final(self).count() == old(self).count(),
            final(self).excl() == old(self).excl(),
            final(self).pend() == old(self).pend(),
            out is Some <==> old(self).shared_grant(),
            out matches Some(c) ==> {
                &&& c.wf()
                &&& !c.freed()
                &&& c.idle()
                &&& vstd::pervasive::cloned(old(self).val(), c.val())
            },
    {
        match self.try_borrow() {
            Some(receipt) => {
                let copy = self.value().clone();
                let freed = self.release_ref(receipt);
                proof {
                    assert(freed is None);
                }
                Some(StableCell::new(copy))
            }
            None => None,
        }
    }

    /// Drop the owning handle. With no borrows outstanding the storage is
    /// freed at once and the value handed out; otherwise only the
    /// pending-drop flag is set and the value stays readable for the
    /// outstanding borrows, to be freed by the last release.
    pub fn drop_owner(&mut self) -> (out: Option<T>)
        requires
            old(self).wf(),
            !old(self).pend(),
            !old(self).freed(),
        ensures
            final(self).wf(),
            old(self).idle() ==> out == Some(old(self).val()) && final(self).freed(),
            !old(self).idle() ==> {
                &&& out is None
                &&& !final(self).freed()
                &&& final(self).val() == old(self).val()
                &&& final(self).count() == old(self).count()
                &&& final(self).excl() == old(self).excl()
                &&& final(self).pend()
            },
    {
        if self.borrow.is_none() {
            self.borrow = self.borrow.make_drop();
            self.value.take()
        } else {
            self.borrow = self.borrow.make_drop();
            None
        }
    }
}

/// A freshly constructed cell grants a shared borrow, and the borrow reads
/// the value the cell was built from.
pub proof fn lemma_fresh_cell_grants_shared<T>(c: StableCell<T>, v: T)
    requires
        c.idle(),
        !c.freed(),
        c.val() == v,
    ensures
        c.shared_grant(),
        c.val() == v,
{
}

/// While a shared borrow is live, a further shared borrow is granted (up to
/// the count limit), the value read is the same, and an exclusive borrow is
/// refused.
pub proof fn lemma_shared_excludes_exclusive<T>(c: StableCell<T>)
    requires
        c.wf(),
        c.count() > 0,
    ensures
        !c.excl_grant(),
        c.count() < max_count() ==> c.shared_grant(),
{
}

/// While the exclusive borrow is live, neither a shared nor a further
/// exclusive borrow is granted.
pub proof fn lemma_exclusive_excludes_all<T>(c: StableCell<T>)
    requires
        c.wf(),
        c.excl(),
    ensures
        !c.shared_grant(),
        !c.excl_grant(),
{
}

/// Dropping the owner while borrows are outstanding does not free the
/// storage: the state it leaves behind (pending flag set, borrows kept,
/// value kept) still reads the same value, and the storage is freed exactly
/// by the release of the last outstanding borrow.
pub proof fn lemma_pending_drop_defers_free<T>(before: StableCell<T>, after: StableCell<T>)
    requires
        before.wf(),
        !before.pend(),
        !before.freed(),
        !before.idle(),
        // what `drop_owner` ensures for a borrowed cell:
        after.wf(),
        !after.freed(),
        after.val() == before.val(),
        after.count() == before.count(),
        after.excl() == before.excl(),
        after.pend(),
    ensures
        after.val() == before.val(),
        after.count() == 1 ==> after.last_ref_frees(),
        after.excl() ==> after.last_mut_frees(),
        !after.shared_grant() || after.count() > 0,
        !after.excl_grant(),
{
}

} // verus!
