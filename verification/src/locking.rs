//! Locks of the kernel, as state machines.
//!
//! A lock here is plain state. Taking it is one attempt: the caller that is turned away spins and
//! asks again, and the thread that asks names itself by a number other than zero.

use vstd::prelude::*;

verus! {

/// How deep the kernel lock can be nested.
pub const HOLDER_STACK_CAP: usize = 16;

/// The kernel-wide lock: one thread holds it, and may take it again while it does.
pub struct KernLock {
    /// Whether the lock is taken.
    pub flag: bool,
    /// Names given at each level, outermost first; zero above `depth`.
    pub holder_stack: [u64; 16],
    /// Levels taken.
    pub depth: usize,
    /// The thread that holds the lock; zero for none.
    pub owner_tid: u64,
}

/// What a kernel lock amounts to: the names of its levels and the thread that holds them.
pub struct LockState {
    pub levels: Seq<u64>,
    pub owner: u64,
}

impl LockState {
    /// Nobody holds the lock.
    pub open spec fn free() -> LockState {
        LockState { levels: Seq::empty(), owner: 0 }
    }

    /// Thread `tid` is let in under the name `id`: it holds the lock already, or nobody does.
    pub open spec fn admits(self, id: u64, tid: u64) -> bool {
        (self.owner == tid && id != 0) || self.levels.len() == 0
    }

    /// The lock after thread `tid` was let in under the name `id`.
    pub open spec fn entered(self, id: u64, tid: u64) -> LockState {
        if self.owner == tid && id != 0 {
            LockState { levels: self.levels.push(id), owner: tid }
        } else {
            LockState { levels: seq![id], owner: tid }
        }
    }

    /// The lock after its innermost level was left.
    pub open spec fn left(self) -> LockState {
        if self.levels.len() > 1 {
            LockState { levels: self.levels.drop_last(), owner: self.owner }
        } else {
            LockState::free()
        }
    }
}

impl KernLock {
    /// The lock's state.
    pub open spec fn view(&self) -> LockState {
        LockState { levels: self.holder_stack@.take(self.depth as int), owner: self.owner_tid }
    }

    /// The flag, the depth and the owner agree, and nothing is left above the depth.
    pub open spec fn wf(&self) -> bool {
        &&& self.depth <= HOLDER_STACK_CAP
        &&& self.flag == (self.depth > 0)
        &&& (self.owner_tid != 0) == (self.depth > 0)
        &&& forall|i: int| self.depth <= i < HOLDER_STACK_CAP ==> self.holder_stack@[i] == 0
    }

    /// A free lock.
    pub fn new() -> (l: Self)
        ensures
            l.wf(),
            l@ == LockState::free(),
    {
        let l = KernLock { flag: false, holder_stack: [0; 16], depth: 0, owner_tid: 0 };
        assert(l@.levels =~= Seq::<u64>::empty());
        l
    }

    /// Name of the innermost level; zero for a free lock.
    pub fn stack_top(&self) -> (id: u64)
        requires
            self.wf(),
        ensures
            id == (if self@.levels.len() == 0 { 0 } else { self@.levels.last() }),
    {
        let d = self.depth;
        if d == 0 {
            return 0;
        }
        self.holder_stack[d - 1]
    }

    /// One attempt of thread `cur_tid` to take the lock under the name `id`. `false` tells the
    /// thread to spin and ask again.
    ///
    /// The thread that holds the lock nests, unless it asks under the name zero.
    pub fn enter(&mut self, id: u64, cur_tid: u64) -> (b: bool)
        requires
            old(self).wf(),
            cur_tid != 0,
            old(self)@.owner == cur_tid && id != 0 ==> old(self)@.levels.len() < HOLDER_STACK_CAP,
        ensures
            final(self).wf(),
            b == old(self)@.admits(id, cur_tid),
            final(self)@ == (if b { old(self)@.entered(id, cur_tid) } else { old(self)@ }),
    {
        let ghost before = self@;
        if self.owner_tid == cur_tid && id != 0 {
            let d = self.depth;
            self.holder_stack[d] = id;
            self.depth = d + 1;
            assert(self@.levels =~= before.levels.push(id));
            return true;
        }
        if self.flag {
            return false;
        }
        self.flag = true;
        self.holder_stack = [0; 16];
        self.holder_stack[0] = id;
        self.depth = 1;
        self.owner_tid = cur_tid;
        assert(self@.levels =~= seq![id]);
        true
    }

    /// Leaves the innermost level, and with the last one the lock. Returns whether `id` is the
    /// name under which that level was entered; a wrong name is reported, not refused.
    pub fn leave(&mut self, id: u64) -> (paired: bool)
        requires
            old(self).wf(),
        ensures
            final(self).wf(),
            final(self)@ == old(self)@.left(),
            paired == (old(self)@.levels.len() == 0 || old(self)@.levels.last() == id),
    {
        let ghost before = self@;
        let d = self.depth;
        let paired = d == 0 || self.stack_top() == id;
        if d > 1 {
            self.holder_stack[d - 1] = 0;
            self.depth = d - 1;
            assert(self@.levels =~= before.levels.drop_last());
            return paired;
        }
        self.holder_stack = [0; 16];
        self.depth = 0;
        self.owner_tid = 0;
        self.flag = false;
        assert(self@.levels =~= Seq::<u64>::empty());
        paired
    }

    /// Whether anybody holds the lock.
    pub fn held(&self) -> (b: bool)
        requires
            self.wf(),
        ensures
            b == (self@.levels.len() > 0),
    {
        self.flag
    }

    /// Name of the innermost level; zero for a free lock.
    pub fn owner(&self) -> (id: u64)
        requires
            self.wf(),
        ensures
            id == (if self@.levels.len() == 0 { 0 } else { self@.levels.last() }),
    {
        self.stack_top()
    }

    /// Number of levels taken.
    pub fn level(&self) -> (n: usize)
        requires
            self.wf(),
        ensures
            n == self@.levels.len(),
    {
        self.depth
    }

    /// Takes the lock as [`KernLock::enter`] does, or reports at once that it cannot.
    pub fn try_enter(&mut self, id: u64, cur_tid: u64) -> (b: bool)
        requires
            old(self).wf(),
            cur_tid != 0,
            old(self)@.owner == cur_tid && id != 0 ==> old(self)@.levels.len() < HOLDER_STACK_CAP,
        ensures
            final(self).wf(),
            b == old(self)@.admits(id, cur_tid),
            final(self)@ == (if b { old(self)@.entered(id, cur_tid) } else { old(self)@ }),
    {
        self.enter(id, cur_tid)
    }
}

/// Leaving undoes entering: whoever is let in and leaves again leaves the lock as it was found.
pub proof fn law_leave_undoes_enter(s: LockState, id: u64, tid: u64)
    requires
        s.levels.len() == 0 <==> s.owner == 0,
        s.levels.len() == 0 ==> s == LockState::free(),
        tid != 0,
        s.admits(id, tid),
    ensures
        s.entered(id, tid).levels.last() == id,
        s.entered(id, tid).left() == s,
{
    if s.levels.len() > 0 {
        assert(s.levels.push(id).drop_last() =~= s.levels);
    }
}

/// While a thread holds the lock no other thread is let in, whatever name it gives.
pub proof fn law_mutual_exclusion(l: KernLock, id: u64, other: u64)
    requires
        l.wf(),
        l@.levels.len() > 0,
        other != l@.owner,
    ensures
        !l@.admits(id, other),
{
}

/// A plain spin lock.
pub struct Spin {
    /// Whether the lock is taken.
    pub v: bool,
}

impl Spin {
    /// A free lock.
    pub fn new() -> (s: Self)
        ensures
            !s.v,
    {
        Spin { v: false }
    }

    /// One turn of the wait: takes a free lock; `false` tells the caller to spin on.
    pub fn acquire(&mut self) -> (b: bool)
        ensures
            b == !old(self).v,
            final(self).v,
            (b, *final(self)) == old(self).attempted(),
    {
        self.try_acquire()
    }

    /// Takes the lock if it is free and says whether it was.
    pub fn try_acquire(&mut self) -> (b: bool)
        ensures
            b == !old(self).v,
            final(self).v,
            (b, *final(self)) == old(self).attempted(),
    {
        let b = !self.v;
        self.v = true;
        b
    }

    /// Frees the lock.
    pub fn release(&mut self)
        ensures
            !final(self).v,
            *final(self) == old(self).let_go(),
    {
        self.v = false;
    }

    /// Whether the lock is taken.
    pub fn is_held(&self) -> (b: bool)
        ensures
            b == self.v,
            b == self.is_taken(),
    {
        self.v
    }
}

/// Marks a stretch of kernel mode; it carries no state of its own.
pub struct FlgGuard(pub u64);

impl FlgGuard {
    /// Enters the stretch.
    pub fn enter() -> (g: Self)
        ensures
            g.0 == 0,
    {
        FlgGuard(0)
    }
}

impl Spin {
    /// Whether somebody has the lock.
    pub open spec fn is_taken(self) -> bool {
        self.v
    }

    /// Whether the lock could be taken, and the lock then.
    pub open spec fn attempted(self) -> (bool, Spin) {
        (!self.v, Spin { v: true })
    }

    /// The lock when nobody has it any longer.
    pub open spec fn let_go(self) -> Spin {
        Spin { v: false }
    }
}

/// A lock that somebody has is given to nobody else until it is let go, and then to the next one.
pub proof fn law_spin_excludes(s: Spin)
    ensures
        s.attempted().1.is_taken(),
        !s.attempted().1.attempted().0,
        s.attempted().0 == !s.is_taken(),
        !s.let_go().is_taken(),
        s.attempted().1.let_go().attempted().0,
{
}

} // verus!
