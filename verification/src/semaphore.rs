//! Counting semaphores.

use vstd::prelude::*;
use crate::sync_queue::{EvBus, EvFlag, EvState};

verus! {

/// A semaphore that can be removed while it is in use.
pub struct Sema {
    /// Units left; below one the semaphore cannot be taken.
    pub cnt: i64,
    /// Process that used it last.
    pub pid: u64,
    /// Whether it was removed.
    pub rm: bool,
    /// Events of the semaphore.
    pub bus: EvBus,
}

/// Proof that a unit was taken, to be given back by [`SemaGuard::finish`].
pub struct SemaGuard(());

/// The state of a semaphore.
#[verifier::ext_equal]
pub struct SemaState {
    /// Units left.
    pub cnt: i64,
    /// Process that used it last.
    pub pid: u64,
    /// Whether it was removed.
    pub rm: bool,
    /// Events of the semaphore.
    pub bus: EvState,
}

impl SemaState {
    /// A semaphore with `c` units.
    pub open spec fn fresh(c: i64) -> SemaState {
        SemaState { cnt: c, pid: 0, rm: false, bus: EvState::quiet() }
    }

    /// After a unit was given back.
    pub open spec fn given_back(self) -> SemaState {
        SemaState {
            cnt: (self.cnt + 1) as i64,
            bus: if self.cnt + 1 >= 1 {
                self.bus.changed_by(0, EvFlag::SEM_ACQ)
            } else {
                self.bus
            },
            ..self
        }
    }

    /// After it was removed.
    pub open spec fn removed(self) -> SemaState {
        SemaState { rm: true, bus: self.bus.changed_by(0, EvFlag::SEM_RM), ..self }
    }
}

impl Sema {
    /// The state of the semaphore.
    pub open spec fn view(&self) -> SemaState {
        SemaState { cnt: self.cnt, pid: self.pid, rm: self.rm, bus: self.bus@ }
    }

    /// A semaphore with `c` units.
    pub fn new(c: i64) -> (s: Self)
        ensures
            s@ == SemaState::fresh(c),
            s.cnt == c,
            s.pid == 0,
            !s.rm,
            s.bus.ev == 0,
            s.bus.cbs@.len() == 0,
            s.bus.due@.len() == 0,
    {
        Sema { cnt: c, pid: 0, rm: false, bus: EvBus::make() }
    }

    /// Removes the semaphore and announces it.
    pub fn remove(&mut self)
        ensures
            final(self)@ == old(self)@.removed(),
            final(self).rm,
            old(self).bus.changed(0, EvFlag::SEM_RM, final(self).bus),
            final(self).cnt == old(self).cnt,
            final(self).pid == old(self).pid,
    {
        self.rm = true;
        self.bus.set(EvFlag::SEM_RM);
    }

    /// The semaphore after a unit was given back.
    pub open spec fn released(self, after: Sema) -> bool {
        &&& after.cnt == self.cnt + 1
        &&& after.pid == self.pid
        &&& after.rm == self.rm
        &&& if after.cnt >= 1 {
            self.bus.changed(0, EvFlag::SEM_ACQ, after.bus)
        } else {
            after.bus == self.bus
        }
    }

    /// The semaphore after a unit was taken.
    pub open spec fn acquired(self, after: Sema) -> bool {
        &&& after.cnt == self.cnt - 1
        &&& after.pid == self.pid
        &&& after.rm == self.rm
        &&& if after.cnt < 1 {
            self.bus.changed(EvFlag::SEM_ACQ, 0, after.bus)
        } else {
            after.bus == self.bus
        }
    }

    /// What an attempt to take a unit yields.
    pub open spec fn attempt(self) -> Result<bool, &'static str> {
        if self.rm {
            Err("removed")
        } else {
            Ok(self.cnt >= 1)
        }
    }

    /// Gives a unit back, and announces that one can be taken if so.
    pub fn release(&mut self)
        requires
            old(self).cnt < i64::MAX,
        ensures
            old(self).released(*final(self)),
            final(self)@ == old(self)@.given_back(),
    {
        self.cnt = self.cnt + 1;
        if self.cnt >= 1 {
            self.bus.set(EvFlag::SEM_ACQ);
        }
    }

    /// Takes a unit if there is one; a removed semaphore refuses.
    pub fn try_acquire(&mut self) -> (r: Result<bool, &'static str>)
        ensures
            r == old(self).attempt(),
            r == Ok::<bool, &'static str>(true) ==> old(self).acquired(*final(self)),
            r != Ok::<bool, &'static str>(true) ==> *final(self) == *old(self),
    {
        if self.rm {
            return Err("removed");
        }
        if self.cnt >= 1 {
            self.cnt = self.cnt - 1;
            if self.cnt < 1 {
                self.bus.clear(EvFlag::SEM_ACQ);
            }
            Ok(true)
        } else {
            Ok(false)
        }
    }

    /// One turn of the wait for a unit: `Ok(false)` tells the caller to yield and ask again.
    pub fn acquire_spin(&mut self) -> (r: Result<bool, &'static str>)
        ensures
            r == old(self).attempt(),
            r == Ok::<bool, &'static str>(true) ==> old(self).acquired(*final(self)),
            r != Ok::<bool, &'static str>(true) ==> *final(self) == *old(self),
    {
        self.try_acquire()
    }

    /// One turn of the wait for a unit that is given back through a guard.
    pub fn access(&mut self) -> (r: Result<Option<SemaGuard>, &'static str>)
        ensures
            match old(self).attempt() {
                Err(e) => r == Err::<Option<SemaGuard>, &'static str>(e) && *final(self) == *old(self),
                Ok(true) => (r matches Ok(g) && g is Some) && old(self).acquired(*final(self)),
                Ok(false) => (r matches Ok(g) && g is None) && *final(self) == *old(self),
            },
    {
        match self.acquire_spin() {
            Err(e) => Err(e),
            Ok(got) => if got {
                Ok(Some(SemaGuard(())))
            } else {
                Ok(None)
            },
        }
    }

    /// Units left.
    pub fn get_val(&self) -> (v: i64)
        ensures
            v == self.cnt,
    {
        self.cnt
    }

    /// Number of those who wait for an event.
    pub fn get_ncnt(&self) -> (n: usize)
        ensures
            n == self.bus.cbs@.len(),
    {
        self.bus.cb_len()
    }

    /// Process that used it last.
    pub fn get_pid(&self) -> (p: u64)
        ensures
            p == self.pid,
    {
        self.pid
    }

    /// Notes the process that used it last.
    pub fn set_pid(&mut self, p: u64)
        ensures
            *final(self) == (Sema { pid: p, ..*old(self) }),
    {
        self.pid = p;
    }

    /// Sets the units, and announces that one can be taken if so.
    pub fn set_val(&mut self, v: i64)
        ensures
            final(self).cnt == v,
            final(self).pid == old(self).pid,
            final(self).rm == old(self).rm,
            v >= 1 ==> old(self).bus.changed(0, EvFlag::SEM_ACQ, final(self).bus),
            v < 1 ==> final(self).bus == old(self).bus,
    {
        self.cnt = v;
        if self.cnt >= 1 {
            self.bus.set(EvFlag::SEM_ACQ);
        }
    }
}

impl SemaGuard {
    /// Gives the unit back.
    pub fn finish(self, s: &mut Sema)
        requires
            old(s).cnt < i64::MAX,
        ensures
            old(s).released(*final(s)),
    {
        s.release();
    }
}

/// Giving a unit back undoes taking it: the count is as before, and the semaphore announces that
/// it can be taken.
pub proof fn law_release_undoes_acquire(before: Sema, taken: Sema, after: Sema)
    requires
        before.attempt() == Ok::<bool, &'static str>(true),
        before.acquired(taken),
        taken.released(after),
    ensures
        after.cnt == before.cnt,
        after.pid == before.pid,
        after.rm == before.rm,
        after.bus.ev & EvFlag::SEM_ACQ != 0,
{
    let e = taken.bus.ev;
    assert((((e & !0u32) | 2097152u32) & 2097152u32) != 0) by (bit_vector);
}

/// A unit can be taken only while there is one: the count never falls below zero by taking, a
/// semaphore without units lets nobody in, and a removed one refuses everybody.
pub proof fn law_units_are_limited(before: Sema, after: Sema)
    requires
        before.acquired(after),
    ensures
        before.attempt() == Ok::<bool, &'static str>(true) ==> after.cnt == before.cnt - 1 && after.cnt >= 0,
        !before.rm && before.cnt <= 0 ==> before.attempt() == Ok::<bool, &'static str>(false),
        !before.rm && before.cnt >= 1 ==> before.attempt() == Ok::<bool, &'static str>(true),
        before.rm ==> before.attempt() is Err,
{
}

/// What is given back counts: after a unit was given back there is one more, which is announced where
/// it can be had, and after a semaphore was removed nobody is let in.
pub proof fn law_given_back_counts(s: SemaState)
    requires
        s.cnt < i64::MAX,
    ensures
        s.given_back().cnt == s.cnt + 1,
        s.given_back().rm == s.rm,
        s.removed().rm,
        s.removed().cnt == s.cnt,
        s.cnt >= 0 ==> s.given_back().bus.ev & EvFlag::SEM_ACQ != 0,
{
    let e = s.bus.ev;
    assert(((e & !0u32) | 2097152u32) & 2097152u32 != 0) by (bit_vector);
}

} // verus!
