//! Signals: which are pending, which are blocked, and what is done about them.

use vstd::prelude::*;
use crate::consts::{NSIG, SIGKILL, SIGSTOP, SIG_DFL, SIG_IGN};

verus! {

/// What is done about a signal.
#[derive(Clone, Copy, PartialEq, Eq, Structural, Debug)]
pub struct SigAction {
    /// Address of the handler; or the default action, or to ignore the signal.
    pub handler: u64,
    /// Flags.
    pub flags: u32,
    /// Signals that are blocked while the handler runs.
    pub mask: u64,
}

/// The signals of a process.
pub struct SigSet {
    /// The pending signals, one bit each.
    pub pending: u64,
    /// The blocked signals, one bit each.
    pub blocked: u64,
    /// What is done about each signal.
    pub actions: Vec<SigAction>,
}

/// Signals that cannot be blocked.
pub open spec fn unblockable() -> u64 {
    (1u64 << SIGKILL) | (1u64 << SIGSTOP)
}

/// `signo` is pending, not blocked, and a signal.
pub open spec fn ready(pending: u64, blocked: u64, signo: u32) -> bool {
    1 <= signo < NSIG && crate::utils::on(pending & !blocked, signo)
}

/// The action with its handler reset, if it is neither the default action nor to ignore.
pub open spec fn uncaught(a: SigAction) -> SigAction {
    if a.handler != SIG_DFL && a.handler != SIG_IGN {
        SigAction { handler: SIG_DFL, ..a }
    } else {
        a
    }
}

proof fn lemma_unblockable(b: u64, m: u64)
    by (bit_vector)
    ensures
        ((b | m) & !((1u64 << 9) | (1u64 << 19))) & ((1u64 << 9) | (1u64 << 19)) == 0,
        (m & !((1u64 << 9) | (1u64 << 19))) & ((1u64 << 9) | (1u64 << 19)) == 0,
        b & ((1u64 << 9) | (1u64 << 19)) == 0 ==> (b & !m) & ((1u64 << 9) | (1u64 << 19)) == 0,
        0u64 & ((1u64 << 9) | (1u64 << 19)) == 0,
        b & ((1u64 << 9) | (1u64 << 19)) == 0 <==> b & (1u64 << 9) == 0 && b & (1u64 << 19) == 0,
{
}

/// What is pending after `signo` was raised.
pub open spec fn raised(pending: u64, signo: u32) -> u64 {
    if signo < NSIG {
        pending | (1u64 << signo)
    } else {
        pending
    }
}

/// What is pending after `signo` was cleared.
pub open spec fn cleared(pending: u64, signo: u32) -> u64 {
    if signo < NSIG {
        pending & !(1u64 << signo)
    } else {
        pending
    }
}

/// What is blocked after the signals of `mask` were blocked, too.
pub open spec fn blocked_with(blocked: u64, mask: u64) -> u64 {
    (blocked | mask) & !unblockable()
}

/// What is blocked after the signals of `mask` were let through.
pub open spec fn blocked_without(blocked: u64, mask: u64) -> u64 {
    blocked & !mask
}

/// What is blocked where just the signals of `mask` are to be.
pub open spec fn just_blocked(mask: u64) -> u64 {
    mask & !unblockable()
}

/// The actions after that of `signo` was set.
pub open spec fn reacting(actions: Seq<SigAction>, signo: u32, action: SigAction) -> Seq<SigAction> {
    if signo < NSIG && signo != SIGKILL && signo != SIGSTOP {
        actions.update(signo as int, action)
    } else {
        actions
    }
}

impl SigSet {
    /// There is an action for each signal; those for killing and stopping are the default, and
    /// these two signals are not blocked.
    pub open spec fn wf(&self) -> bool {
        &&& self.actions@.len() == NSIG + 1
        &&& self.blocked & unblockable() == 0
        &&& self.actions@[SIGKILL as int].handler == SIG_DFL
        &&& self.actions@[SIGSTOP as int].handler == SIG_DFL
    }

    /// Nothing pending, nothing blocked, and the default action for all.
    pub fn new() -> (s: Self)
        ensures
            s.wf(),
            s.pending == 0,
            s.blocked == 0,
            s.actions@ == Seq::new((NSIG + 1) as nat, |i: int| SigAction { handler: SIG_DFL, flags: 0, mask: 0 }),
    {
        let mut actions: Vec<SigAction> = Vec::new();
        let mut i: u32 = 0;
        while i <= NSIG
            invariant
                i <= NSIG + 1,
                actions@.len() == i,
                forall|k: int|
                    0 <= k < i ==> (#[trigger] actions@[k]) == (SigAction { handler: SIG_DFL, flags: 0, mask: 0 }),
            decreases NSIG + 1 - i,
        {
            actions.push(SigAction { handler: SIG_DFL, flags: 0, mask: 0 });
            i += 1;
        }
        proof {
            lemma_unblockable(0, 0);
            assert(actions@ =~= Seq::new((NSIG + 1) as nat, |i: int| SigAction { handler: SIG_DFL, flags: 0, mask: 0 }));
        }
        SigSet { pending: 0, blocked: 0, actions }
    }

    /// Whether a signal is pending.
    pub fn sig_pending(&self, signo: u32) -> (r: bool)
        requires
            signo < 64,
        ensures
            r == crate::utils::on(self.pending, signo),
    {
        (self.pending & (1u64 << signo)) != 0
    }

    /// Makes a signal pending.
    pub fn sig_raise(&mut self, signo: u32)
        ensures
            final(self).pending == raised(old(self).pending, signo),
            final(self).pending == (if signo < NSIG {
                old(self).pending | (1u64 << signo)
            } else {
                old(self).pending
            }),
            final(self).blocked == old(self).blocked,
            final(self).actions == old(self).actions,
    {
        if signo < NSIG {
            self.pending = self.pending | (1u64 << signo);
        }
    }

    /// The signals that are pending and not blocked.
    pub fn coalesce_pending(&mut self) -> (m: u64)
        ensures
            m == old(self).pending & !old(self).blocked,
            *final(self) == *old(self),
    {
        self.pending & !self.blocked
    }

    /// Makes a signal no longer pending.
    pub fn sig_clear(&mut self, signo: u32)
        ensures
            final(self).pending == cleared(old(self).pending, signo),
            final(self).pending == (if signo < NSIG {
                old(self).pending & !(1u64 << signo)
            } else {
                old(self).pending
            }),
            final(self).blocked == old(self).blocked,
            final(self).actions == old(self).actions,
    {
        if signo < NSIG {
            self.pending = self.pending & !(1u64 << signo);
        }
    }

    /// Blocks signals, but for killing and stopping.
    pub fn sig_block(&mut self, mask: u64)
        ensures
            final(self).blocked == blocked_with(old(self).blocked, mask),
            final(self).blocked == (old(self).blocked | mask) & !unblockable(),
            final(self).pending == old(self).pending,
            final(self).actions == old(self).actions,
            old(self).wf() ==> final(self).wf(),
    {
        proof {
            lemma_unblockable(self.blocked, mask);
        }
        self.blocked = (self.blocked | mask) & !((1u64 << SIGKILL) | (1u64 << SIGSTOP));
    }

    /// Unblocks signals.
    pub fn sig_unblock(&mut self, mask: u64)
        ensures
            final(self).blocked == blocked_without(old(self).blocked, mask),
            final(self).blocked == old(self).blocked & !mask,
            final(self).pending == old(self).pending,
            final(self).actions == old(self).actions,
            old(self).wf() ==> final(self).wf(),
    {
        proof {
            lemma_unblockable(self.blocked, mask);
        }
        self.blocked = self.blocked & !mask;
    }

    /// Blocks just these signals, but for killing and stopping.
    pub fn sig_setmask(&mut self, mask: u64)
        ensures
            final(self).blocked == just_blocked(mask),
            final(self).blocked == mask & !unblockable(),
            final(self).pending == old(self).pending,
            final(self).actions == old(self).actions,
            old(self).wf() ==> final(self).wf(),
    {
        proof {
            lemma_unblockable(self.blocked, mask);
        }
        self.blocked = mask & !((1u64 << SIGKILL) | (1u64 << SIGSTOP));
    }

    /// The lowest signal that is pending and not blocked.
    pub fn deliverable(&self) -> (r: Option<u32>)
        ensures
            r is None ==> forall|j: u32| !#[trigger] ready(self.pending, self.blocked, j),
            r matches Some(i) ==> ready(self.pending, self.blocked, i) && forall|j: u32|
                j < i ==> !#[trigger] ready(self.pending, self.blocked, j),
    {
        let actionable: u64 = self.pending & !self.blocked;
        let mut i: u32 = 1;
        while i < NSIG
            invariant
                1 <= i <= NSIG,
                actionable == self.pending & !self.blocked,
                forall|j: u32| j < i ==> !#[trigger] ready(self.pending, self.blocked, j),
            decreases NSIG - i,
        {
            if (actionable & (1u64 << i)) != 0 {
                assert(ready(self.pending, self.blocked, i));
                return Some(i);
            }
            i += 1;
        }
        None
    }

    /// Sets what is done about a signal, but for killing and stopping.
    pub fn set_action(&mut self, signo: u32, action: SigAction)
        requires
            old(self).wf(),
        ensures
            final(self).wf(),
            final(self).actions@ == reacting(old(self).actions@, signo, action),
            final(self).actions@ == (if signo < NSIG && signo != SIGKILL && signo != SIGSTOP {
                old(self).actions@.update(signo as int, action)
            } else {
                old(self).actions@
            }),
            final(self).pending == old(self).pending,
            final(self).blocked == old(self).blocked,
    {
        if signo < NSIG && signo != SIGKILL && signo != SIGSTOP {
            self.actions.set(signo as usize, action);
        }
    }

    /// What is done about a signal; for what is no signal, the first action.
    pub fn get_action(&self, signo: u32) -> (a: &SigAction)
        requires
            self.wf(),
        ensures
            *a == (if signo < self.actions@.len() { self.actions@[signo as int] } else { self.actions@[0] }),
    {
        if (signo as usize) < self.actions.len() {
            &self.actions[signo as usize]
        } else {
            &self.actions[0]
        }
    }

    /// Whether a signal is ignored.
    pub fn is_ignored(&self, signo: u32) -> (r: bool)
        ensures
            r == (signo < self.actions@.len() && self.actions@[signo as int].handler == SIG_IGN),
    {
        if (signo as usize) < self.actions.len() {
            self.actions[signo as usize].handler == SIG_IGN
        } else {
            false
        }
    }

    /// Puts the default action in the place of every handler, as a new program wants it; signals
    /// that are ignored stay so.
    pub fn clear_non_caught(&mut self)
        requires
            old(self).wf(),
        ensures
            final(self).wf(),
            final(self).pending == old(self).pending,
            final(self).blocked == old(self).blocked,
            final(self).actions@.len() == old(self).actions@.len(),
            final(self).actions@[0] == old(self).actions@[0],
            forall|i: int|
                1 <= i < old(self).actions@.len() ==> (#[trigger] final(self).actions@[i]) == uncaught(old(self).actions@[i]),
    {
        let mut i: usize = 1;
        while i < self.actions.len()
            invariant
                1 <= i <= self.actions@.len(),
                old(self).wf(),
                self.actions@.len() == old(self).actions@.len(),
                self.pending == old(self).pending,
                self.blocked == old(self).blocked,
                self.actions@[0] == old(self).actions@[0],
                forall|k: int| 1 <= k < i ==> (#[trigger] self.actions@[k]) == uncaught(old(self).actions@[k]),
                forall|k: int| i <= k < self.actions@.len() ==> (#[trigger] self.actions@[k]) == old(self).actions@[k],
            decreases self.actions@.len() - i,
        {
            let mut a = self.actions[i];
            if a.handler != SIG_DFL && a.handler != SIG_IGN {
                a.handler = SIG_DFL;
                self.actions.set(i, a);
            }
            i += 1;
        }
    }
}

/// Killing and stopping are never blocked, whatever was asked to be.
pub proof fn law_kill_gets_through(s: SigSet)
    requires
        s.wf(),
    ensures
        !crate::utils::on(s.blocked, SIGKILL),
        !crate::utils::on(s.blocked, SIGSTOP),
        crate::utils::on(s.pending, SIGKILL) ==> ready(s.pending, s.blocked, SIGKILL),
        crate::utils::on(s.pending, SIGSTOP) ==> ready(s.pending, s.blocked, SIGSTOP),
{
    lemma_unblockable(s.blocked, 0);
    crate::utils::lemma_on(s.pending, s.blocked, 0, SIGKILL);
    crate::utils::lemma_on(s.pending, s.blocked, 0, SIGSTOP);
}

/// A raised signal is pending until it is cleared; raising and clearing touch no other signal.
pub proof fn law_raise_and_clear(pending: u64, signo: u32, other: u32)
    requires
        signo < NSIG,
        other < NSIG,
    ensures
        crate::utils::on(pending | (1u64 << signo), signo),
        !crate::utils::on(pending & !(1u64 << signo), signo),
        other != signo ==> crate::utils::on(pending | (1u64 << signo), other) == crate::utils::on(pending, other),
        other != signo ==> crate::utils::on(pending & !(1u64 << signo), other) == crate::utils::on(pending, other),
{
    crate::utils::lemma_on(pending, 0, signo, signo);
    crate::utils::lemma_on(pending, 0, signo, other);
}

/// A blocked signal stays pending and is not delivered; once unblocked it is.
pub proof fn law_blocked_waits(pending: u64, blocked: u64, signo: u32)
    requires
        1 <= signo < NSIG,
        crate::utils::on(pending, signo),
    ensures
        ready(pending, blocked, signo) <==> !crate::utils::on(blocked, signo),
        ready(pending, blocked & !(1u64 << signo), signo),
{
    crate::utils::lemma_on(pending, blocked, signo, signo);
    crate::utils::lemma_on(blocked, 0, signo, signo);
    crate::utils::lemma_on(pending, blocked & !(1u64 << signo), signo, signo);
}

proof fn lemma_unblockable_bits(s: u32)
    requires
        s < 64,
    ensures
        crate::utils::on(unblockable(), s) <==> s == SIGKILL || s == SIGSTOP,
{
    crate::utils::lemma_on(1u64 << SIGKILL, 0, SIGSTOP, s);
    crate::utils::lemma_on(0, 1u64 << SIGKILL, SIGKILL, s);
}

/// A signal that was raised is ready to be delivered unless it is blocked, and no longer once it was
/// cleared; other signals are not concerned.
pub proof fn law_raised_is_ready(pending: u64, blocked: u64, signo: u32, other: u32)
    requires
        1 <= signo < NSIG,
        1 <= other < NSIG,
        other != signo,
    ensures
        ready(raised(pending, signo), blocked, signo) <==> !crate::utils::on(blocked, signo),
        !ready(cleared(pending, signo), blocked, signo),
        ready(raised(pending, signo), blocked, other) == ready(pending, blocked, other),
        ready(cleared(pending, signo), blocked, other) == ready(pending, blocked, other),
{
    law_raise_and_clear(pending, signo, other);
    let a = raised(pending, signo);
    let b = cleared(pending, signo);
    crate::utils::lemma_on(a, blocked, 0, signo);
    crate::utils::lemma_on(a, blocked, 0, other);
    crate::utils::lemma_on(b, blocked, 0, signo);
    crate::utils::lemma_on(b, blocked, 0, other);
    crate::utils::lemma_on(pending, blocked, 0, other);
}

/// What is blocked after a change: those that were and those that were added, but never those that
/// end or stop a task; and no more those that were let through.
pub proof fn law_blocking_adds_and_takes(blocked: u64, mask: u64, s: u32)
    requires
        s < 64,
    ensures
        crate::utils::on(blocked_with(blocked, mask), s) <==> (crate::utils::on(blocked, s) || crate::utils::on(mask, s)) && s
            != SIGKILL && s != SIGSTOP,
        crate::utils::on(blocked_without(blocked, mask), s) <==> crate::utils::on(blocked, s) && !crate::utils::on(mask, s),
        crate::utils::on(just_blocked(mask), s) <==> crate::utils::on(mask, s) && s != SIGKILL && s != SIGSTOP,
{
    lemma_unblockable_bits(s);
    crate::utils::lemma_on(mask, unblockable(), 0, s);
    crate::utils::lemma_on(blocked, mask, 0, s);
    crate::utils::lemma_on(blocked | mask, unblockable(), 0, s);
}

/// An action that was set is the one of its signal, except for the signals that cannot be caught;
/// those of other signals stay.
pub proof fn law_action_is_set(actions: Seq<SigAction>, signo: u32, action: SigAction, other: u32)
    requires
        actions.len() == NSIG + 1,
        signo < NSIG,
        other < NSIG,
    ensures
        signo != SIGKILL && signo != SIGSTOP ==> reacting(actions, signo, action)[signo as int] == action,
        reacting(actions, SIGKILL, action) == actions,
        reacting(actions, SIGSTOP, action) == actions,
        other != signo ==> reacting(actions, signo, action)[other as int] == actions[other as int],
{
}

/// After handlers were forgotten a signal does what it does by default, unless it was ignored, which
/// it stays.
pub proof fn law_handlers_are_forgotten(a: SigAction)
    ensures
        uncaught(a).handler == (if a.handler == SIG_IGN { SIG_IGN } else { SIG_DFL }),
        uncaught(uncaught(a)) == uncaught(a),
        uncaught(a) == (SigAction { handler: uncaught(a).handler, ..a }),
{
}

} // verus!
