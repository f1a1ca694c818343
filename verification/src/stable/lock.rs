//! The lock flavor of the stable cell: the borrow bookkeeping is kept as a
//! plain machine word, decoded and re-encoded around every transition, the
//! way a compare-and-swap loop would treat it. The transition algebra is
//! exactly that of `stable::util::BorrowState`; making the word update an
//! atomic read-modify-write is a scheduling concern outside this model.

use vstd::prelude::*;
use crate::stable::util::BorrowState;
use crate::stable::util::count_of;
use crate::stable::util::excl_of;
use crate::stable::util::max_count;
use crate::stable::util::pend_of;

verus! {

/// Receipt for one outstanding shared borrow of a lock.
pub struct StableRef;

/// Receipt for the outstanding exclusive borrow of a lock.
pub struct StableMut;

/// One owned value plus the packed borrow word that guards it.
pub struct StableLock<T> {
    word: usize,
    value: Option<T>,
}

impl<T> StableLock<T> {
    /// Whether the storage has already been freed (the value handed out).
    pub closed spec fn freed(self) -> bool {
        self.value is None
    }

    /// The stored value; meaningful only while the lock is not freed.
    pub closed spec fn val(self) -> T {
        self.value->Some_0
    }

    /// Number of outstanding shared borrows.
    pub closed spec fn count(self) -> nat {
        count_of(self.word)
    }

    /// Whether an exclusive borrow is outstanding.
    pub closed spec fn excl(self) -> bool {
        excl_of(self.word)
    }

    /// Whether the owner has been dropped while borrows remained.
    pub closed spec fn pend(self) -> bool {
        pend_of(self.word)
    }

    /// No borrows are outstanding and the owner is still live.
    pub open spec fn idle(self) -> bool {
        self.count() == 0 && !self.excl() && !self.pend()
    }

    /// A shared borrow will be granted in this state.
    pub open spec fn shared_grant(self) -> bool {
        self.idle() || (0 < self.count() < max_count())
    }

    /// An exclusive borrow will be granted in this state.
    pub open spec fn excl_grant(self) -> bool {
        self.idle()
    }

    /// Releasing a shared borrow from this state frees the storage.
    pub open spec fn last_ref_frees(self) -> bool {
        self.pend() && self.count() == 1
    }

    /// Releasing the exclusive borrow from this state frees the storage.
    pub open spec fn last_mut_frees(self) -> bool {
        self.pend() && self.excl() && self.count() == 0
    }

    /// Structural invariant, as for the cell flavor.
    pub open spec fn wf(self) -> bool {
        &&& !(self.excl() && self.count() > 0)
        &&& self.freed() ==> (self.count() == 0 && !self.excl() && self.pend())
    }

    /// Allocate a fresh lock holding `val`, with no borrows outstanding.
    pub fn new(val: T) -> (c: StableLock<T>)
        ensures
            c.wf(),
            !c.freed(),
            c.idle(),
            c.val() == val,
    {
        StableLock { word: BorrowState::new().to_val(), value: Some(val) }
    }

    /// Construction from a value that coerces into the stored type. With
    /// dynamically sized values out of scope here, the coercion is the
    /// identity and this coincides with `new`.
    pub fn new_from(val: T) -> (c: StableLock<T>)
        ensures
            c.wf(),
            !c.freed(),
            c.idle(),
            c.val() == val,
    {
        StableLock::new(val)
    }

    /// Read the stored value.
    pub fn value(&self) -> (r: &T)
        requires
            self.wf(),
            !self.freed(),
        ensures
            *r == self.val(),
    {
        self.value.as_ref().unwrap()
    }

    /// Replace the stored value; only the holder of the exclusive borrow may
    /// do so.
    pub fn set_value(&mut self, val: T)
        requires
            old(self).wf(),
            old(self).excl(),
        ensures
            final(self).wf(),
            !final(self).freed(),
            final(self).val() == val,
            final(self).count() == old(self).count(),
            final(self).excl() == old(self).excl(),
            final(self).pend() == old(self).pend(),
    {
        self.value = Some(val);
    }

    /// Attempt to take one shared borrow; the state machine decides.
    pub fn try_borrow(&mut self) -> (r: Option<StableRef>)
        requires
            old(self).wf(),
        ensures
            final(self).wf(),
            r is Some <==> old(self).shared_grant(),
            r is Some ==> {
                &&& final(self).count() == old(self).count() + 1
                &&& final(self).excl() == old(self).excl()
                &&& final(self).pend() == old(self).pend()
                &&& final(self).freed() == old(self).freed()
                &&& final(self).val() == old(self).val()
            },
            r is None ==> *final(self) == *old(self),
    {
        match BorrowState::from_val(self.word).incr_ref() {
            Some(new_state) => {
                self.word = new_state.to_val();
                Some(StableRef)
            }
            None => None,
        }
    }

    /// Attempt to take the exclusive borrow; only an idle lock grants one.
    pub fn try_borrow_mut(&mut self) -> (r: Option<StableMut>)
        requires
            old(self).wf(),
        ensures
            final(self).wf(),
            r is Some <==> old(self).excl_grant(),
            r is Some ==> {
                &&& final(self).count() == 0
                &&& final(self).excl()
                &&& !final(self).pend()
                &&& final(self).freed() == old(self).freed()
                &&& final(self).val() == old(self).val()
            },
            r is None ==> *final(self) == *old(self),
    {
        match BorrowState::from_val(self.word).incr_mut() {
            Some(new_state) => {
                self.word = new_state.to_val();
                Some(StableMut)
            }
            None => None,
        }
    }

    /// Release one shared borrow; frees the storage when the owner is gone
    /// and this was the last borrow.
    pub fn release_ref(&mut self, r: StableRef) -> (out: Option<T>)
        requires
            old(self).wf(),
        ensures
            final(self).wf(),
            out is Some <==> old(self).last_ref_frees(),
            out matches Some(v) ==> v == old(self).val() && final(self).freed(),
            old(self).count() == 1 && !old(self).pend() ==> {
                &&& final(self).idle()
                &&& !final(self).freed()
                &&& final(self).val() == old(self).val()
            },
            old(self).count() > 1 ==> {
                &&& final(self).count() == old(self).count() - 1
                &&& final(self).excl() == old(self).excl()
                &&& final(self).pend() == old(self).pend()
                &&& !final(self).freed()
                &&& final(self).val() == old(self).val()
            },
            old(self).count() == 0 ==> *final(self) == *old(self),
    {
        let _ = r;
        let (new_state, should_free) = BorrowState::from_val(self.word).decr_ref();
        self.word = new_state.to_val();
        if should_free {
            self.value.take()
        } else {
            None
        }
    }

    /// Release the exclusive borrow; frees the storage when the owner is
    /// gone.
    pub fn release_mut(&mut self, m: StableMut) -> (out: Option<T>)
        requires
            old(self).wf(),
        ensures
            final(self).wf(),
            out is Some <==> old(self).last_mut_frees(),
            out matches Some(v) ==> v == old(self).val() && final(self).freed(),
            old(self).excl() && old(self).count() == 0 && !old(self).pend() ==> {
                &&& final(self).idle()
                &&& !final(self).freed()
                &&& final(self).val() == old(self).val()
            },
            !(old(self).excl() && old(self).count() == 0) ==> *final(self) == *old(self),
    {
        let _ = m;
        let (new_state, should_free) = BorrowState::from_val(self.word).decr_mut();
        self.word = new_state.to_val();
        if should_free {
            self.value.take()
        } else {
            None
        }
    }

    /// Drop the owning handle: free at once when idle, else set the
    /// pending-drop flag and leave the value for the outstanding borrows.
    pub fn drop_owner(&mut self) -> (out: Option<T>)
        requires
            old(self).wf(),
            !old(self).pend(),
            !old(self).freed(),
        ensures
            final(self).wf(),
            old(self).idle() ==> out == Some(old(self).val()) && final(self).freed(),
            !old(self).idle() ==> {
                &&& out is None
                &&& !final(self).freed()
                &&& final(self).val() == old(self).val()
                &&& final(self).count() == old(self).count()
                &&& final(self).excl() == old(self).excl()
                &&& final(self).pend()
            },
    {
        let state = BorrowState::from_val(self.word);
        if state.is_none() {
            self.word = state.make_drop().to_val();
            self.value.take()
        } else {
            self.word = state.make_drop().to_val();
            None
        }
    }
}

} // verus!
