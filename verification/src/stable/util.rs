//! The borrow state machine shared by the stable cells.
//!
//! One machine word records everything a cell needs to arbitrate access:
//! how many shared borrows are outstanding, whether an exclusive borrow is
//! outstanding, and whether the owning handle has already been dropped while
//! borrows remained (in which case the last release must free the storage).

use vstd::prelude::*;

verus! {

/// The shared-borrow count held in a packed borrow word.
pub open spec fn count_of(val: usize) -> nat {
    (val / 4) as nat
}

/// Whether a packed borrow word records an outstanding exclusive borrow.
pub open spec fn excl_of(val: usize) -> bool {
    val % 2 == 1
}

/// Whether a packed borrow word records that the owner was dropped while
/// borrows remained.
pub open spec fn pend_of(val: usize) -> bool {
    (val / 2) % 2 == 1
}

/// Greatest shared-borrow count a packed word can record.
pub open spec fn max_count() -> nat {
    count_of(usize::MAX)
}

/// Borrow bookkeeping for one cell, packed into a machine word: a
/// shared-borrow count, an exclusive-borrow flag, and a pending-drop flag.
///
/// The word is laid out as `4 * count + 2 * pending + exclusive`; the
/// arithmetic below only ever touches one of the three components at a time.
#[derive(Debug, Copy, Clone)]
pub struct BorrowState(usize);

impl BorrowState {
    /// The packed word itself.
    pub closed spec fn raw(self) -> usize {
        self.0
    }

    /// Number of outstanding shared borrows.
    pub open spec fn count(self) -> nat {
        count_of(self.raw())
    }

    /// Whether an exclusive borrow is outstanding.
    pub open spec fn excl(self) -> bool {
        excl_of(self.raw())
    }

    /// Whether the owner was dropped while borrows remained.
    pub open spec fn pend(self) -> bool {
        pend_of(self.raw())
    }

    /// No borrows are outstanding and the owner has not been dropped.
    pub open spec fn idle(self) -> bool {
        self.count() == 0 && !self.excl() && !self.pend()
    }

    /// A well-formed word never records both access modes at once.
    pub open spec fn wf(self) -> bool {
        !(self.excl() && self.count() > 0)
    }

    /// Reconstruct a state from a packed word.
    pub fn from_val(val: usize) -> (r: BorrowState)
        ensures
            r.raw() == val,
    {
        BorrowState(val)
    }

    /// The state of a cell that has never been borrowed.
    pub fn new() -> (r: BorrowState)
        ensures
            r.idle(),
            r.raw() == 0,
    {
        BorrowState(0)
    }

    /// The packed word, for storage in a plain integer.
    pub fn to_val(self) -> (r: usize)
        ensures
            r == self.raw(),
    {
        self.0
    }

    /// True exactly when no borrows are outstanding and the owner is live.
    pub fn is_none(self) -> (r: bool)
        ensures
            r == self.idle(),
    {
        proof {
            lemma_zero_word(self.0);
        }
        self.0 == 0
    }

    /// True exactly when the owner has been dropped.
    pub fn is_drop(self) -> (r: bool)
        ensures
            r == self.pend(),
    {
        (self.0 / 2) % 2 == 1
    }

    /// True exactly when the exclusive flag is set.
    pub fn is_borrow(self) -> (r: bool)
        ensures
            r == self.excl(),
    {
        self.0 % 2 == 1
    }

    /// True exactly when at least one shared borrow is outstanding.
    pub fn is_ref(self) -> (r: bool)
        ensures
            r == (self.count() > 0),
    {
        self.0 / 4 > 0
    }

    /// True exactly when an exclusive borrow is outstanding (and the word is
    /// not also carrying a shared count, which a well-formed word never does).
    pub fn is_mut(self) -> (r: bool)
        ensures
            r == (self.excl() && self.count() == 0),
    {
        self.is_borrow() && self.0 / 4 == 0
    }

    /// Record that the owner has been dropped; borrows are unaffected.
    pub fn make_drop(self) -> (r: BorrowState)
        ensures
            r.count() == self.count(),
            r.excl() == self.excl(),
            r.pend(),
    {
        if self.is_drop() {
            self
        } else {
            proof {
                lemma_word_bound(self.0);
            }
            BorrowState(self.0 + 2)
        }
    }

    /// Try to record one more shared borrow. Fails when an exclusive borrow
    /// is outstanding, when the owner is gone, or when the count would
    /// overflow the word.
    pub fn incr_ref(self) -> (r: Option<BorrowState>)
        ensures
            r is Some <==> (self.idle() || (self.count() > 0 && self.count() < max_count())),
            r matches Some(s) ==> {
                &&& s.count() == self.count() + 1
                &&& s.excl() == self.excl()
                &&& s.pend() == self.pend()
            },
    {
        if self.is_none() {
            Some(BorrowState(4))
        } else if self.is_ref() {
            if self.0 <= usize::MAX - 4 {
                proof {
                    lemma_incr_word(self.0);
                }
                Some(BorrowState(self.0 + 4))
            } else {
                proof {
                    lemma_count_near_max(self.0);
                }
                None
            }
        } else {
            None
        }
    }

    /// Release one shared borrow. The boolean reports whether this was the
    /// last borrow of a cell whose owner is already gone, in which case the
    /// caller must free the storage. A word with no shared borrows recorded
    /// is returned unchanged.
    pub fn decr_ref(self) -> (r: (BorrowState, bool))
        ensures
            self.count() == 1 ==> {
                &&& r.0.count() == 0
                &&& !r.0.excl()
                &&& r.0.pend() == self.pend()
                &&& r.1 == self.pend()
            },
            self.count() > 1 ==> {
                &&& r.0.count() == self.count() - 1
                &&& r.0.excl() == self.excl()
                &&& r.0.pend() == self.pend()
                &&& !r.1
            },
            self.count() == 0 ==> r == (self, false),
    {
        if self.is_ref() {
            if self.0 / 4 == 1 {
                let kept: usize = if self.is_drop() { 2 } else { 0 };
                (BorrowState(kept), self.is_drop())
            } else {
                proof {
                    lemma_decr_word(self.0);
                }
                (BorrowState(self.0 - 4), false)
            }
        } else {
            (self, false)
        }
    }

    /// Try to record an exclusive borrow; only an idle cell grants one.
    pub fn incr_mut(self) -> (r: Option<BorrowState>)
        ensures
            r is Some <==> self.idle(),
            r matches Some(s) ==> s.count() == 0 && s.excl() && !s.pend(),
    {
        if self.is_none() {
            Some(BorrowState(1))
        } else {
            None
        }
    }

    /// Release the exclusive borrow. The boolean reports whether the owner
    /// is already gone, in which case the caller must free the storage. A
    /// word with no exclusive borrow recorded is returned unchanged.
    pub fn decr_mut(self) -> (r: (BorrowState, bool))
        ensures
            (self.excl() && self.count() == 0) ==> {
                &&& r.0.count() == 0
                &&& !r.0.excl()
                &&& r.0.pend() == self.pend()
                &&& r.1 == self.pend()
            },
            !(self.excl() && self.count() == 0) ==> r == (self, false),
    {
        if self.is_mut() {
            let kept: usize = if self.is_drop() { 2 } else { 0 };
            (BorrowState(kept), self.is_drop())
        } else {
            (self, false)
        }
    }
}

/// A word is zero exactly when all three packed components are zero.
proof fn lemma_zero_word(val: usize)
    ensures
        (val == 0) <==> (count_of(val) == 0 && !excl_of(val) && !pend_of(val)),
{
    if count_of(val) == 0 && !excl_of(val) && !pend_of(val) {
        assert(val < 4);
        assert(val != 1 && val != 3);
        assert(val != 2) by {
            assert((2usize / 2) % 2 == 1);
        }
    }
}

/// A word without the pending bit leaves room to set it.
proof fn lemma_word_bound(val: usize)
    requires
        !pend_of(val),
    ensures
        val + 2 <= usize::MAX,
        count_of((val + 2) as usize) == count_of(val),
        excl_of((val + 2) as usize) == excl_of(val),
        pend_of((val + 2) as usize),
{
    assert(val % 4 == val % 2 + 2 * ((val / 2) % 2)) by (nonlinear_arith);
    assert(val == 4 * (val / 4) + val % 4) by (nonlinear_arith);
    assert(val / 4 <= usize::MAX / 4) by (nonlinear_arith)
        requires val <= usize::MAX,
    ;
    assert(4 * (val / 4) <= 4 * (usize::MAX / 4)) by (nonlinear_arith)
        requires val / 4 <= usize::MAX / 4,
    ;
    assert(usize::MAX % 4 == 3);
    assert(usize::MAX == 4 * (usize::MAX / 4) + 3) by (nonlinear_arith);
    assert((val + 2) / 4 == val / 4 && (val + 2) % 4 == val % 4 + 2) by (nonlinear_arith)
        requires val % 4 == val % 2 + 2 * ((val / 2) % 2), (val / 2) % 2 == 0,
    ;
    assert((val + 2) % 2 == val % 2) by (nonlinear_arith);
    assert(((val + 2) / 2) % 2 == 1) by (nonlinear_arith)
        requires (val / 2) % 2 == 0, val % 4 == val % 2 + 2 * ((val / 2) % 2),
    ;
}

/// Adding four to a word increments the count and leaves the flags alone.
proof fn lemma_incr_word(val: usize)
    requires
        val <= usize::MAX - 4,
    ensures
        count_of((val + 4) as usize) == count_of(val) + 1,
        excl_of((val + 4) as usize) == excl_of(val),
        pend_of((val + 4) as usize) == pend_of(val),
{
    assert((val + 4) / 4 == val / 4 + 1) by (nonlinear_arith);
    assert((val + 4) % 2 == val % 2) by (nonlinear_arith);
    assert((val + 4) / 2 == val / 2 + 2) by (nonlinear_arith);
    assert(((val / 2) + 2) % 2 == (val / 2) % 2) by (nonlinear_arith);
}

/// Subtracting four from a word decrements the count and leaves the flags
/// alone.
proof fn lemma_decr_word(val: usize)
    requires
        count_of(val) >= 1,
    ensures
        count_of((val - 4) as usize) == count_of(val) - 1,
        excl_of((val - 4) as usize) == excl_of(val),
        pend_of((val - 4) as usize) == pend_of(val),
{
    assert(val == 4 * (val / 4) + val % 4) by (nonlinear_arith);
    assert(val >= 4) by (nonlinear_arith)
        requires val / 4 >= 1, val == 4 * (val / 4) + val % 4,
    ;
    assert((val - 4) / 4 == val / 4 - 1) by (nonlinear_arith)
        requires val >= 4,
    ;
    assert((val - 4) % 2 == val % 2) by (nonlinear_arith)
        requires val >= 4,
    ;
    assert(((val - 4) / 2) % 2 == (val / 2) % 2) by (nonlinear_arith)
        requires val >= 4,
    ;
}

/// A word too large to add four to already records the greatest count.
proof fn lemma_count_near_max(val: usize)
    requires
        val > usize::MAX - 4,
    ensures
        count_of(val) >= max_count(),
{
    assert(val / 4 >= (usize::MAX - 3) / 4) by (nonlinear_arith)
        requires val >= usize::MAX - 3,
    ;
    assert(usize::MAX % 4 == 3);
    assert((usize::MAX - 3) / 4 == usize::MAX / 4) by (nonlinear_arith)
        requires usize::MAX % 4 == 3,
    ;
}

} // verus!
