//! A stable cell whose borrow bookkeeping is an explicit enumeration rather
//! than a packed word: the mode (idle, shared with a count, exclusive) and,
//! orthogonally, whether the owner has already been dropped. A single
//! transition function arbitrates every acquire and release.

use vstd::prelude::*;

verus! {

/// Which borrows remained outstanding when the owner was dropped.
#[derive(Debug, Copy, Clone)]
enum DropKind {
    /// The exclusive borrow was outstanding.
    Excl,
    /// This many shared borrows were outstanding; zero marks storage that
    /// has already been freed.
    Shared(u64),
}

/// The borrow mode of one cell.
#[derive(Debug, Copy, Clone)]
enum Mode {
    /// No borrows outstanding, owner live.
    Idle,
    /// This many shared borrows outstanding (at least one), owner live.
    Shared(u64),
    /// The exclusive borrow outstanding, owner live.
    Excl,
    /// The owner has been dropped; the remaining borrows are recorded.
    Dropped(DropKind),
}

/// A requested change to the borrow mode.
#[derive(Debug, Copy, Clone)]
enum BorrowChange {
    AddRef,
    AddMut,
    DeRef,
    DeMut,
}

impl Mode {
    /// Number of outstanding shared borrows.
    spec fn count(self) -> nat {
        match self {
            Mode::Shared(n) => n as nat,
            Mode::Dropped(DropKind::Shared(n)) => n as nat,
            _ => 0,
        }
    }

    /// Whether the exclusive borrow is outstanding.
    spec fn excl(self) -> bool {
        self is Excl || self == Mode::Dropped(DropKind::Excl)
    }

    /// Whether the owner has been dropped.
    spec fn pend(self) -> bool {
        self is Dropped
    }

    /// A live shared mode always records at least one borrow.
    spec fn wf(self) -> bool {
        self matches Mode::Shared(n) ==> n >= 1
    }
}

/// The transition algebra: what a requested change does to a mode, or
/// nothing when the change is refused.
spec fn mode_step(mode: Mode, change: BorrowChange) -> Option<Mode> {
    match (mode, change) {
        (Mode::Idle, BorrowChange::AddRef) => Some(Mode::Shared(1)),
        (Mode::Idle, BorrowChange::AddMut) => Some(Mode::Excl),
        (Mode::Idle, _) => None,
        (Mode::Shared(n), BorrowChange::AddRef) => if n < u64::MAX {
            Some(Mode::Shared((n + 1) as u64))
        } else {
            None
        },
        (Mode::Shared(n), BorrowChange::DeRef) => if n == 1 {
            Some(Mode::Idle)
        } else {
            Some(Mode::Shared((n - 1) as u64))
        },
        (Mode::Shared(_), _) => None,
        (Mode::Excl, BorrowChange::DeMut) => Some(Mode::Idle),
        (Mode::Excl, _) => None,
        (Mode::Dropped(DropKind::Shared(n)), BorrowChange::DeRef) => if n > 1 {
            Some(Mode::Dropped(DropKind::Shared((n - 1) as u64)))
        } else {
            Some(mode)
        },
        (Mode::Dropped(DropKind::Excl), BorrowChange::DeMut) => Some(mode),
        (Mode::Dropped(_), _) => None,
    }
}

/// Storage and borrow mode of one cell.
struct CellState<T> {
    borrow: Mode,
    value: Option<T>,
}

impl<T> CellState<T> {
    /// Attempt a borrow-mode change. On success the previous mode is
    /// returned, so the caller can see whether it just released the last
    /// borrow of a dropped owner; on refusal nothing changes.
    fn try_borrow(&mut self, change: BorrowChange) -> (r: Option<Mode>)
        requires
            old(self).borrow.wf(),
        ensures
            r is Some <==> mode_step(old(self).borrow, change) is Some,
            r matches Some(prev) ==> {
                &&& prev == old(self).borrow
                &&& final(self).borrow == mode_step(old(self).borrow, change)->Some_0
            },
            r is None ==> final(self).borrow == old(self).borrow,
            final(self).value == old(self).value,
    {
        let cur = self.borrow;
        match (cur, change) {
            (Mode::Idle, BorrowChange::AddRef) => {
                self.borrow = Mode::Shared(1);
                Some(cur)
            }
            (Mode::Idle, BorrowChange::AddMut) => {
                self.borrow = Mode::Excl;
                Some(cur)
            }
            (Mode::Idle, _) => None,

            (Mode::Shared(n), BorrowChange::AddRef) => {
                match n.checked_add(1) {
                    Some(bumped) => {
                        self.borrow = Mode::Shared(bumped);
                        Some(cur)
                    }
                    None => None,
                }
            }
            (Mode::Shared(n), BorrowChange::DeRef) => {
                if n == 1 {
                    self.borrow = Mode::Idle;
                } else {
                    self.borrow = Mode::Shared(n - 1);
                }
                Some(cur)
            }
            (Mode::Shared(_), _) => None,

            (Mode::Excl, BorrowChange::DeMut) => {
                self.borrow = Mode::Idle;
                Some(cur)
            }
            (Mode::Excl, _) => None,

            (Mode::Dropped(DropKind::Shared(n)), BorrowChange::DeRef) => {
                if n > 1 {
                    self.borrow = Mode::Dropped(DropKind::Shared(n - 1));
                }
                Some(cur)
            }
            (Mode::Dropped(DropKind::Excl), BorrowChange::DeMut) => Some(cur),
            (Mode::Dropped(_), _) => None,
        }
    }
}

/// Receipt for one outstanding shared borrow of a cell.
pub struct StableRef;

/// Receipt for the outstanding exclusive borrow of a cell.
pub struct StableMut;

/// A stable cell over the enumerated borrow mode. Its observable behaviour
/// matches the packed-word flavor in `stable::cell`.
pub struct StableCell<T>(CellState<T>);

impl<T> StableCell<T> {
    /// Whether the storage has already been freed (the value handed out).
    pub closed spec fn freed(self) -> bool {
        self.0.value is None
    }

    /// The stored value; meaningful only while the cell is not freed.
    pub closed spec fn val(self) -> T {
        self.0.value->Some_0
    }

    /// Number of outstanding shared borrows.
    pub closed spec fn count(self) -> nat {
        self.0.borrow.count()
    }

    /// Whether the exclusive borrow is outstanding.
    pub closed spec fn excl(self) -> bool {
        self.0.borrow.excl()
    }

    /// Whether the owner has been dropped while borrows remained.
    pub closed spec fn pend(self) -> bool {
        self.0.borrow.pend()
    }

    /// No borrows are outstanding and the owner is still live.
    pub open spec fn idle(self) -> bool {
        self.count() == 0 && !self.excl() && !self.pend()
    }

    /// A shared borrow will be granted in this state. In this flavor a
    /// dropped owner refuses new shared borrows even while old ones remain.
    pub open spec fn shared_grant(self) -> bool {
        self.idle() || (0 < self.count() < u64::MAX && !self.pend())
    }

    /// An exclusive borrow will be granted in this state.
    pub open spec fn excl_grant(self) -> bool {
        self.idle()
    }

    /// Releasing a shared borrow from this state frees the storage.
    pub open spec fn last_ref_frees(self) -> bool {
        self.pend() && self.count() == 1
    }

    /// Releasing the exclusive borrow from this state frees the storage.
    pub open spec fn last_mut_frees(self) -> bool {
        self.pend() && self.excl()
    }

    /// Structural invariant: a live shared mode records at least one
    /// borrow, and freed storage is marked by the dropped mode with no
    /// remaining borrows, which refuses every further change.
    pub closed spec fn wf(self) -> bool {
        &&& self.0.borrow.wf()
        &&& self.freed() <==> self.0.borrow == Mode::Dropped(DropKind::Shared(0))
    }

    /// Allocate a fresh cell holding `val`, with no borrows outstanding.
    pub fn new(val: T) -> (c: StableCell<T>)
        ensures
            c.wf(),
            !c.freed(),
            c.idle(),
            c.val() == val,
    {
        StableCell(CellState { borrow: Mode::Idle, value: Some(val) })
    }

    /// Allocate a fresh cell from an already boxed value.
    pub fn new_boxed(val: Box<T>) -> (c: StableCell<T>)
        ensures
            c.wf(),
            !c.freed(),
            c.idle(),
            c.val() == *val,
    {
        StableCell(CellState { borrow: Mode::Idle, value: Some(*val) })
    }

    /// Read the stored value.
    pub fn value(&self) -> (r: &T)
        requires
            self.wf(),
            !self.freed(),
        ensures
            *r == self.val(),
    {
        self.0.value.as_ref().unwrap()
    }

    /// Replace the stored value; only the holder of the exclusive borrow
    /// may do so.
    pub fn set_value(&mut self, val: T)
        requires
            old(self).wf(),
            old(self).excl(),
            !old(self).freed(),
        ensures
            final(self).wf(),
            !final(self).freed(),
            final(self).val() == val,
            final(self).count() == old(self).count(),
            final(self).excl() == old(self).excl(),
            final(self).pend() == old(self).pend(),
    {
        self.0.value = Some(val);
    }

    /// Attempt to take one shared borrow.
    pub fn try_borrow(&mut self) -> (r: Option<StableRef>)
        requires
            old(self).wf(),
        ensures
            final(self).wf(),
            r is Some <==> old(self).shared_grant(),
            r is Some ==> {
                &&& final(self).count() == old(self).count() + 1
                &&& final(self).excl() == old(self).excl()
                &&& final(self).pend() == old(self).pend()
                &&& final(self).freed() == old(self).freed()
                &&& final(self).val() == old(self).val()
            },
            r is None ==> *final(self) == *old(self),
    {
        match self.0.try_borrow(BorrowChange::AddRef) {
            Some(_) => Some(StableRef),
            None => None,
        }
    }

    /// Attempt to take the exclusive borrow.
    pub fn try_borrow_mut(&mut self) -> (r: Option<StableMut>)
        requires
            old(self).wf(),
        ensures
            final(self).wf(),
            r is Some <==> old(self).excl_grant(),
            r is Some ==> {
                &&& final(self).count() == 0
                &&& final(self).excl()
                &&& !final(self).pend()
                &&& final(self).freed() == old(self).freed()
                &&& final(self).val() == old(self).val()
            },
            r is None ==> *final(self) == *old(self),
    {
        match self.0.try_borrow(BorrowChange::AddMut) {
            Some(_) => Some(StableMut),
            None => None,
        }
    }

    /// Release one shared borrow; frees the storage when the owner is gone
    /// and this was the last borrow.
    pub fn release_ref(&mut self, r: StableRef) -> (out: Option<T>)
        requires
            old(self).wf(),
        ensures
            final(self).wf(),
            out is Some <==> old(self).last_ref_frees(),
            out matches Some(v) ==> v == old(self).val() && final(self).freed(),
            old(self).count() == 1 && !old(self).pend() ==> {
                &&& final(self).idle()
                &&& !final(self).freed()
                &&& final(self).val() == old(self).val()
            },
            old(self).count() > 1 ==> {
                &&& final(self).count() == old(self).count() - 1
                &&& final(self).excl() == old(self).excl()
                &&& final(self).pend() == old(self).pend()
                &&& !final(self).freed()
                &&& final(self).val() == old(self).val()
            },
            old(self).count() == 0 ==> *final(self) == *old(self),
    {
        let _ = r;
        match self.0.try_borrow(BorrowChange::DeRef) {
            Some(Mode::Dropped(DropKind::Shared(1))) => {
                self.0.borrow = Mode::Dropped(DropKind::Shared(0));
                self.0.value.take()
            }
            _ => None,
        }
    }

    /// Release the exclusive borrow; frees the storage when the owner is
    /// gone.
    pub fn release_mut(&mut self, m: StableMut) -> (out: Option<T>)
        requires
            old(self).wf(),
        ensures
            final(self).wf(),
            out is Some <==> old(self).last_mut_frees(),
            out matches Some(v) ==> v == old(self).val() && final(self).freed(),
            old(self).excl() && !old(self).pend() ==> {
                &&& final(self).idle()
                &&& !final(self).freed()
                &&& final(self).val() == old(self).val()
            },
            !old(self).excl() ==> *final(self) == *old(self),
    {
        let _ = m;
        match self.0.try_borrow(BorrowChange::DeMut) {
            Some(Mode::Dropped(DropKind::Excl)) => {
                self.0.borrow = Mode::Dropped(DropKind::Shared(0));
                self.0.value.take()
            }
            _ => None,
        }
    }

    /// Drop the owning handle: free at once when idle, else record the
    /// outstanding borrows under the dropped mode and leave the value for
    /// them, to be freed by the last release.
    pub fn drop_owner(&mut self) -> (out: Option<T>)
        requires
            old(self).wf(),
            !old(self).pend(),
            !old(self).freed(),
        ensures
            final(self).wf(),
            old(self).idle() ==> out == Some(old(self).val()) && final(self).freed(),
            !old(self).idle() ==> {
                &&& out is None
                &&& !final(self).freed()
                &&& final(self).val() == old(self).val()
                &&& final(self).count() == old(self).count()
                &&& final(self).excl() == old(self).excl()
                &&& final(self).pend()
            },
    {
        match self.0.borrow {
            Mode::Shared(n) => {
                self.0.borrow = Mode::Dropped(DropKind::Shared(n));
                None
            }
            Mode::Excl => {
                self.0.borrow = Mode::Dropped(DropKind::Excl);
                None
            }
            _ => {
                self.0.borrow = Mode::Dropped(DropKind::Shared(0));
                self.0.value.take()
            }
        }
    }
}

} // verus!
