//! Timers, kept on a wheel of slots.

use vstd::prelude::*;
use crate::consts::TIMER_WHEEL_SIZE;

verus! {

/// A timer.
#[derive(Clone, Copy, PartialEq, Eq, Structural, Debug)]
pub struct TimerEntry {
    /// The tick after which it fires.
    pub deadline: u64,
    /// Ticks between two firings; 0 for a timer that fires once.
    pub interval: u64,
    /// What to call.
    pub callback_id: u64,
    /// The timer has not been cancelled.
    pub active: bool,
    /// The timer fires again and again.
    pub repeat: bool,
}

impl TimerEntry {
    /// A timer as it is made.
    pub open spec fn made(deadline: u64, interval: u64, cb_id: u64) -> TimerEntry {
        TimerEntry { deadline, interval, callback_id: cb_id, active: true, repeat: interval > 0 }
    }

    /// The timer is active, and its deadline has passed.
    pub open spec fn fires(self, now: u64) -> bool {
        self.active && now > self.deadline
    }

    /// The timer after it has fired and, if it repeats, has been set anew.
    pub open spec fn rearmed(self, now: u64) -> TimerEntry {
        if self.repeat {
            TimerEntry { deadline: (now + self.interval) as u64, ..self }
        } else {
            self
        }
    }

    /// An active timer.
    pub fn new(deadline: u64, interval: u64, cb_id: u64) -> (t: Self)
        ensures
            t == Self::made(deadline, interval, cb_id),
    {
        TimerEntry { deadline, interval, callback_id: cb_id, active: true, repeat: interval > 0 }
    }

    /// Whether the deadline has passed.
    pub fn expired(&self, now: u64) -> (r: bool)
        ensures
            r == (now > self.deadline),
            r == self.is_over(now),
    {
        now > self.deadline
    }

    /// Sets a repeating timer anew; makes any other inactive.
    pub fn reset(&mut self, now: u64)
        requires
            old(self).repeat ==> now + old(self).interval <= u64::MAX,
        ensures
            *final(self) == (if old(self).repeat {
                TimerEntry { deadline: (now + old(self).interval) as u64, ..*old(self) }
            } else {
                TimerEntry { active: false, ..*old(self) }
            }),
    {
        if self.repeat {
            self.deadline = now + self.interval;
        } else {
            self.active = false;
        }
    }

    /// Ticks until the deadline.
    pub fn remaining(&self, now: u64) -> (n: u64)
        ensures
            n == (if now >= self.deadline { 0 } else { self.deadline - now }),
            n == self.time_left(now),
    {
        if now >= self.deadline {
            0
        } else {
            self.deadline - now
        }
    }

    /// Makes the timer inactive.
    pub fn cancel(&mut self)
        ensures
            *final(self) == (TimerEntry { active: false, ..*old(self) }),
    {
        self.active = false;
    }
}

/// The slot of a deadline.
pub open spec fn slot_of(deadline: u64) -> int {
    deadline as int % TIMER_WHEEL_SIZE as int
}

/// Firing at `now`.
pub open spec fn firing(now: u64) -> spec_fn(TimerEntry) -> bool {
    |t: TimerEntry| t.fires(now)
}

/// Being active and not firing at `now`.
pub open spec fn staying(now: u64) -> spec_fn(TimerEntry) -> bool {
    |t: TimerEntry| t.active && !t.fires(now)
}

/// Being active.
pub open spec fn is_active() -> spec_fn(TimerEntry) -> bool {
    |t: TimerEntry| t.active
}

/// The repeating ones of the timers that fire at `now` have a next deadline.
pub open spec fn rearmable(slot: Seq<TimerEntry>, now: u64) -> bool {
    forall|j: int|
        0 <= j < slot.len() && (#[trigger] slot[j]).fires(now) && slot[j].repeat ==> now + slot[j].interval <= u64::MAX
}

/// The slots with a timer added.
pub open spec fn added(slots: Seq<Seq<TimerEntry>>, t: TimerEntry) -> Seq<Seq<TimerEntry>> {
    slots.update(slot_of(t.deadline), slots[slot_of(t.deadline)].push(t))
}

/// The slots with the repeating ones of the first `n` fired timers added anew.
pub open spec fn requeued(slots: Seq<Seq<TimerEntry>>, fired: Seq<TimerEntry>, n: int) -> Seq<Seq<TimerEntry>>
    decreases n,
{
    if n <= 0 {
        slots
    } else {
        let before = requeued(slots, fired, n - 1);
        let t = fired[n - 1];
        if t.repeat {
            added(before, TimerEntry::made(t.deadline, t.interval, t.callback_id))
        } else {
            before
        }
    }
}

/// The timers that fire when the wheel stands at `slot`.
pub open spec fn fired_at(slots: Seq<Seq<TimerEntry>>, slot: int, now: u64) -> Seq<TimerEntry> {
    slots[slot].filter(firing(now)).map_values(|t: TimerEntry| t.rearmed(now))
}

/// The slots after the wheel has stood at `slot`.
pub open spec fn turned(slots: Seq<Seq<TimerEntry>>, slot: int, now: u64) -> Seq<Seq<TimerEntry>> {
    let fired = fired_at(slots, slot, now);
    requeued(slots.update(slot, slots[slot].filter(staying(now))), fired, fired.len() as int)
}

/// How many timers are active in the first `n` slots.
pub open spec fn active_in(slots: Seq<Seq<TimerEntry>>, n: int) -> int
    decreases n,
{
    if n <= 0 {
        0
    } else {
        active_in(slots, n - 1) + slots[n - 1].filter(is_active()).len()
    }
}

/// Timer `j` of slot `i` is active and calls `cb`.
pub open spec fn calls(slots: Seq<Seq<TimerEntry>>, cb: u64, i: int, j: int) -> bool {
    0 <= i < slots.len() && 0 <= j < slots[i].len() && slots[i][j].active && slots[i][j].callback_id == cb
}

/// Timer `j` of slot `i` is the first active one that calls `cb`, slot by slot.
pub open spec fn first_call(slots: Seq<Seq<TimerEntry>>, cb: u64, i: int, j: int) -> bool {
    &&& calls(slots, cb, i, j)
    &&& forall|k: int, m: int| #[trigger] calls(slots, cb, k, m) ==> i < k || (i == k && j <= m)
}

/// Cancelling what calls `cb` finds a timer or not, and leaves the slots `after`.
pub open spec fn cancelled(slots: Seq<Seq<TimerEntry>>, cb: u64, found: bool, after: Seq<Seq<TimerEntry>>) -> bool {
    if found {
        exists|i: int, j: int|
            #![trigger calls(slots, cb, i, j)]
            first_call(slots, cb, i, j) && after == slots.update(
                i,
                slots[i].update(j, TimerEntry { active: false, ..slots[i][j] }),
            )
    } else {
        after == slots && forall|i: int, j: int| !#[trigger] calls(slots, cb, i, j)
    }
}

/// The timers, each in the slot of its deadline.
pub struct TimerWheel {
    /// The slots.
    pub slots: Vec<Vec<TimerEntry>>,
    /// Where the wheel stands.
    pub current_slot: usize,
}

/// The contents of slots.
pub open spec fn contents(v: Seq<Vec<TimerEntry>>) -> Seq<Seq<TimerEntry>> {
    v.map_values(|s: Vec<TimerEntry>| s@)
}

/// Every timer stands in the slot of its deadline.
pub open spec fn placed(slots: Seq<Seq<TimerEntry>>) -> bool {
    forall|i: int, j: int|
        #![trigger slots[i][j]]
        0 <= i < slots.len() && 0 <= j < slots[i].len() ==> slot_of(slots[i][j].deadline) == i
}

impl TimerWheel {
    /// The contents of the slots.
    pub open spec fn view(&self) -> Seq<Seq<TimerEntry>> {
        contents(self.slots@)
    }

    /// The wheel has all its slots and stands at one of them, and every timer is in its place.
    pub open spec fn wf(&self) -> bool {
        self.slots@.len() == TIMER_WHEEL_SIZE && self.current_slot < TIMER_WHEEL_SIZE && placed(self@)
    }

    /// A wheel without timers.
    pub fn new() -> (w: Self)
        ensures
            w.wf(),
            w@ == Seq::new(TIMER_WHEEL_SIZE as nat, |i: int| Seq::<TimerEntry>::empty()),
            w.current_slot == 0,
    {
        let mut slots: Vec<Vec<TimerEntry>> = Vec::new();
        let mut i: usize = 0;
        while i < TIMER_WHEEL_SIZE
            invariant
                i <= TIMER_WHEEL_SIZE,
                slots@.len() == i,
                forall|k: int| 0 <= k < i ==> (#[trigger] slots@[k])@ == Seq::<TimerEntry>::empty(),
            decreases TIMER_WHEEL_SIZE - i,
        {
            slots.push(Vec::new());
            i += 1;
        }
        let w = TimerWheel { slots, current_slot: 0 };
        assert(w@ =~= Seq::new(TIMER_WHEEL_SIZE as nat, |i: int| Seq::<TimerEntry>::empty()));
        w
    }

    /// Adds a timer.
    pub fn add_timer(&mut self, entry: TimerEntry)
        requires
            old(self).wf(),
        ensures
            final(self).wf(),
            final(self)@ == added(old(self)@, entry),
            final(self).current_slot == old(self).current_slot,
    {
        let slot: usize = (entry.deadline % TIMER_WHEEL_SIZE as u64) as usize;
        let ghost before = self@;
        self.slots[slot].push(entry);
        proof {
            assert(self@ =~= added(before, entry));
            assert forall|i: int, j: int|
                #![trigger self@[i][j]]
                0 <= i < self@.len() && 0 <= j < self@[i].len() implies slot_of(self@[i][j].deadline) == i by {
                if i != slot || j < before[i].len() {
                    assert(self@[i][j] == before[i][j]);
                }
            }
        }
    }

    /// Moves the wheel one slot on and gives the timers that fire there; repeating ones are set
    /// anew and added again.
    pub fn advance(&mut self, now: u64) -> (fired: Vec<TimerEntry>)
        requires
            old(self).wf(),
            rearmable(old(self)@[(old(self).current_slot + 1) % TIMER_WHEEL_SIZE as int], now),
        ensures
            final(self).wf(),
            final(self).current_slot == (old(self).current_slot + 1) % TIMER_WHEEL_SIZE as int,
            fired@ == fired_at(old(self)@, final(self).current_slot as int, now),
            final(self)@ == turned(old(self)@, final(self).current_slot as int, now),
    {
        self.current_slot = (self.current_slot + 1) % TIMER_WHEEL_SIZE;
        let cur = self.current_slot;
        let ghost before = self@;
        let ghost here = before[cur as int];
        let ghost goes = firing(now);
        let ghost stays = staying(now);
        let mut fired: Vec<TimerEntry> = Vec::new();
        let mut rest: Vec<TimerEntry> = Vec::new();
        let mut k: usize = 0;
        proof {
            crate::seqs::lemma_filter_ends(here, goes);
            crate::seqs::lemma_filter_ends(here, stays);
        }
        while k < self.slots[cur].len()
            invariant
                cur < self.slots@.len(),
                self@ == before,
                here == before[cur as int],
                here == self.slots@[cur as int]@,
                self.wf(),
                self.current_slot == cur,
                goes == firing(now),
                stays == staying(now),
                k <= here.len(),
                fired@ == here.take(k as int).filter(goes),
                rest@ == here.take(k as int).filter(stays),
            decreases here.len() - k,
        {
            proof {
                crate::seqs::lemma_filter_step(here, k as int, goes);
                crate::seqs::lemma_filter_step(here, k as int, stays);
            }
            let t = self.slots[cur][k];
            if t.active && t.expired(now) {
                fired.push(t);
            } else if t.active {
                rest.push(t);
            }
            k += 1;
        }
        let ghost due = fired@;
        proof {
            crate::seqs::lemma_filter_ends(here, goes);
            crate::seqs::lemma_filter_ends(here, stays);
            crate::seqs::lemma_filter_contains(here, goes);
            crate::seqs::lemma_filter_contains(here, stays);
        }
        self.slots.set(cur, rest);
        let ghost slots0 = before.update(cur as int, rest@);
        proof {
            assert(self@ =~= slots0);
            assert forall|i: int, j: int|
                #![trigger slots0[i][j]]
                0 <= i < slots0.len() && 0 <= j < slots0[i].len() implies slot_of(slots0[i][j].deadline) == i by {
                if i == cur {
                    assert(rest@.contains(rest@[j]));
                    let m = choose|m: int| 0 <= m < here.len() && here[m] == rest@[j];
                    assert(slot_of(before[cur as int][m].deadline) == cur);
                } else {
                    assert(slots0[i][j] == before[i][j]);
                }
            }
            assert forall|m: int| 0 <= m < due.len() && (#[trigger] due[m]).repeat implies now + due[m].interval
                <= u64::MAX by {
                assert(due.contains(due[m]));
                let x = choose|x: int| 0 <= x < here.len() && here[x] == due[m];
                assert(here[x].fires(now) && here[x].repeat);
            }
        }
        let ghost all = due.map_values(|t: TimerEntry| t.rearmed(now));
        let mut n: usize = 0;
        while n < fired.len()
            invariant
                n <= fired@.len(),
                fired@.len() == due.len(),
                all == due.map_values(|t: TimerEntry| t.rearmed(now)),
                forall|m: int| 0 <= m < n ==> fired@[m] == all[m],
                forall|m: int| n <= m < due.len() ==> fired@[m] == due[m],
                forall|m: int| 0 <= m < due.len() && (#[trigger] due[m]).repeat ==> now + due[m].interval <= u64::MAX,
                self.wf(),
                self.current_slot == cur,
                self@ == requeued(slots0, all, n as int),
            decreases fired@.len() - n,
        {
            let mut t = fired[n];
            assert(t == due[n as int]);
            if t.repeat {
                t.reset(now);
                fired.set(n, t);
                self.add_timer(TimerEntry::new(t.deadline, t.interval, t.callback_id));
            }
            assert(fired@[n as int] == all[n as int]);
            n += 1;
        }
        proof {
            assert(fired@ =~= all);
        }
        fired
    }

    /// Makes the first active timer that calls `cb_id` inactive; tells whether there was one.
    pub fn cancel(&mut self, cb_id: u64) -> (found: bool)
        requires
            old(self).wf(),
        ensures
            final(self).wf(),
            cancelled(old(self)@, cb_id, found, final(self)@),
            final(self).current_slot == old(self).current_slot,
            !found ==> final(self)@ == old(self)@ && forall|i: int, j: int| !#[trigger] calls(old(self)@, cb_id, i, j),
            found ==> exists|i: int, j: int|
                #![trigger calls(old(self)@, cb_id, i, j)]
                first_call(old(self)@, cb_id, i, j) && final(self)@ == old(self)@.update(
                    i,
                    old(self)@[i].update(j, TimerEntry { active: false, ..old(self)@[i][j] }),
                ),
    {
        let ghost before = self@;
        let mut i: usize = 0;
        while i < self.slots.len()
            invariant
                *self == *old(self),
                self.wf(),
                before == self@,
                i <= self.slots@.len(),
                forall|k: int, m: int| k < i ==> !#[trigger] calls(before, cb_id, k, m),
            decreases self.slots@.len() - i,
        {
            let mut j: usize = 0;
            while j < self.slots[i].len()
                invariant
                    *self == *old(self),
                    self.wf(),
                    before == self@,
                    i < self.slots@.len(),
                    j <= self.slots@[i as int]@.len(),
                    forall|k: int, m: int| k < i || (k == i && m < j) ==> !#[trigger] calls(before, cb_id, k, m),
                decreases self.slots@[i as int]@.len() - j,
            {
                let mut t = self.slots[i][j];
                assert(t == before[i as int][j as int]);
                if t.callback_id == cb_id && t.active {
                    assert(calls(before, cb_id, i as int, j as int));
                    t.active = false;
                    self.slots[i].set(j, t);
                    proof {
                        assert(self@ =~= before.update(i as int, before[i as int].update(j as int, t)));
                        assert(first_call(before, cb_id, i as int, j as int));
                        assert(cancelled(before, cb_id, true, self@));
                        assert forall|k: int, m: int|
                            #![trigger self@[k][m]]
                            0 <= k < self@.len() && 0 <= m < self@[k].len() implies slot_of(self@[k][m].deadline) == k by {
                            assert(slot_of(before[k][m].deadline) == k);
                        }
                    }
                    return true;
                }
                j += 1;
            }
            i += 1;
        }
        false
    }

    /// How many timers are active.
    pub fn active_count(&self) -> (n: usize)
        requires
            self.wf(),
            active_in(self@, TIMER_WHEEL_SIZE as int) <= usize::MAX,
        ensures
            n == active_in(self@, TIMER_WHEEL_SIZE as int),
    {
        let mut n: usize = 0;
        let mut i: usize = 0;
        let ghost p = is_active();
        while i < self.slots.len()
            invariant
                self.wf(),
                p == is_active(),
                i <= self.slots@.len(),
                n == active_in(self@, i as int),
                active_in(self@, TIMER_WHEEL_SIZE as int) <= usize::MAX,
            decreases self.slots@.len() - i,
        {
            let ghost here = self@[i as int];
            let mut j: usize = 0;
            proof {
                crate::seqs::lemma_filter_ends(here, p);
                lemma_active_grows(self@, i + 1, TIMER_WHEEL_SIZE as int);
            }
            while j < self.slots[i].len()
                invariant
                    self.wf(),
                    p == is_active(),
                    i < self.slots@.len(),
                    here == self.slots@[i as int]@,
                    here == self@[i as int],
                    j <= here.len(),
                    n == active_in(self@, i as int) + here.take(j as int).filter(p).len(),
                    active_in(self@, i as int) + here.filter(p).len() <= usize::MAX,
                decreases here.len() - j,
            {
                proof {
                    crate::seqs::lemma_filter_step(here, j as int, p);
                    lemma_filter_take(here, p, j + 1);
                }
                if self.slots[i][j].active {
                    n += 1;
                }
                j += 1;
            }
            proof {
                crate::seqs::lemma_filter_ends(here, p);
            }
            i += 1;
        }
        n
    }
}

proof fn lemma_active_grows(slots: Seq<Seq<TimerEntry>>, a: int, b: int)
    requires
        0 <= a <= b,
    ensures
        active_in(slots, a) <= active_in(slots, b),
    decreases b,
{
    if a < b {
        lemma_active_grows(slots, a, b - 1);
    }
}

proof fn lemma_filter_take(s: Seq<TimerEntry>, p: spec_fn(TimerEntry) -> bool, n: int)
    requires
        0 <= n <= s.len(),
    ensures
        s.take(n).filter(p).len() <= s.filter(p).len(),
    decreases s.len() - n,
{
    if n < s.len() {
        crate::seqs::lemma_filter_step(s, n, p);
        lemma_filter_take(s, p, n + 1);
    } else {
        assert(s.take(n) =~= s);
    }
}

/// Only timers whose deadline has passed fire, and none that was cancelled.
pub proof fn law_fires_after_deadline(slots: Seq<Seq<TimerEntry>>, slot: int, now: u64, i: int)
    requires
        0 <= slot < slots.len(),
        0 <= i < fired_at(slots, slot, now).len(),
    ensures
        exists|j: int|
            0 <= j < slots[slot].len() && (#[trigger] slots[slot][j]).active && slots[slot][j].deadline < now
                && fired_at(slots, slot, now)[i] == slots[slot][j].rearmed(now),
{
    let here = slots[slot];
    let due = here.filter(firing(now));
    crate::seqs::lemma_filter_contains(here, firing(now));
    assert(due.contains(due[i]));
    let j = choose|j: int| 0 <= j < here.len() && here[j] == due[i];
    assert(slots[slot][j].fires(now));
}

/// A timer that is due fires when the wheel stands at its slot.
pub proof fn law_due_timer_fires(slots: Seq<Seq<TimerEntry>>, slot: int, now: u64, j: int)
    requires
        0 <= slot < slots.len(),
        0 <= j < slots[slot].len(),
        slots[slot][j].fires(now),
    ensures
        fired_at(slots, slot, now).contains(slots[slot][j].rearmed(now)),
{
    let here = slots[slot];
    let due = here.filter(firing(now));
    crate::seqs::lemma_filter_contains(here, firing(now));
    assert(here.contains(here[j]));
    assert(due.contains(here[j]));
    let i = choose|i: int| 0 <= i < due.len() && due[i] == here[j];
    assert(fired_at(slots, slot, now)[i] == here[j].rearmed(now));
}

/// An active timer that fires again and again, every `interval` ticks, and calls `cb`.
pub open spec fn repeats(cb: u64, interval: u64) -> spec_fn(TimerEntry) -> bool {
    |t: TimerEntry| t.active && t.repeat && t.callback_id == cb && t.interval == interval
}

/// How many timers with the property `p` are in the first `n` slots.
pub open spec fn count_in(slots: Seq<Seq<TimerEntry>>, n: int, p: spec_fn(TimerEntry) -> bool) -> int
    decreases n,
{
    if n <= 0 {
        0
    } else {
        count_in(slots, n - 1, p) + slots[n - 1].filter(p).len()
    }
}

/// The timers are as they are made: one repeats if it has an interval.
pub open spec fn regular(slots: Seq<Seq<TimerEntry>>) -> bool {
    forall|i: int, j: int|
        #![trigger slots[i][j]]
        0 <= i < slots.len() && 0 <= j < slots[i].len() ==> slots[i][j].repeat == (slots[i][j].interval > 0)
}

proof fn lemma_count_update(slots: Seq<Seq<TimerEntry>>, n: int, p: spec_fn(TimerEntry) -> bool, i: int, s: Seq<TimerEntry>)
    requires
        0 <= i < slots.len(),
        0 <= n <= slots.len(),
    ensures
        count_in(slots.update(i, s), n, p) == count_in(slots, n, p) + (if i < n {
            s.filter(p).len() - slots[i].filter(p).len()
        } else {
            0
        }),
    decreases n,
{
    if n > 0 {
        lemma_count_update(slots, n - 1, p, i, s);
    }
}

proof fn lemma_filter_push(s: Seq<TimerEntry>, p: spec_fn(TimerEntry) -> bool, t: TimerEntry)
    ensures
        s.push(t).filter(p).len() == s.filter(p).len() + (if p(t) {
            1int
        } else {
            0
        }),
{
    let all = s.push(t);
    crate::seqs::lemma_filter_step(all, s.len() as int, p);
    crate::seqs::lemma_filter_ends(all, p);
    assert(all.take(s.len() as int) =~= s);
    assert(all.take(all.len() as int) =~= all);
}

/// What adding the repeating ones of the first `n` fired timers does to the slots.
proof fn lemma_requeued(slots: Seq<Seq<TimerEntry>>, fired: Seq<TimerEntry>, n: int)
    requires
        slots.len() == TIMER_WHEEL_SIZE,
        0 <= n <= fired.len(),
    ensures
        ({
            let after = requeued(slots, fired, n);
            &&& after.len() == slots.len()
            &&& forall|i: int|
                0 <= i < slots.len() ==> slots[i].len() <= (#[trigger] after[i]).len() && after[i].take(slots[i].len() as int)
                    == slots[i]
            &&& forall|k: int|
                0 <= k < n && (#[trigger] fired[k]).repeat ==> after[slot_of(fired[k].deadline)].contains(
                    TimerEntry::made(fired[k].deadline, fired[k].interval, fired[k].callback_id),
                )
        }),
    decreases n,
{
    if n > 0 {
        lemma_requeued(slots, fired, n - 1);
        let before = requeued(slots, fired, n - 1);
        let after = requeued(slots, fired, n);
        let t = fired[n - 1];
        let m = TimerEntry::made(t.deadline, t.interval, t.callback_id);
        let at = slot_of(t.deadline);
        if t.repeat {
            assert(after[at][before[at].len() as int] == m);
            assert(after[at].take(slots[at].len() as int) =~= before[at].take(slots[at].len() as int));
            assert forall|k: int| 0 <= k < n && (#[trigger] fired[k]).repeat implies after[slot_of(fired[k].deadline)].contains(
                TimerEntry::made(fired[k].deadline, fired[k].interval, fired[k].callback_id),
            ) by {
                if k < n - 1 {
                    let x = TimerEntry::made(fired[k].deadline, fired[k].interval, fired[k].callback_id);
                    let b = before[slot_of(fired[k].deadline)];
                    let j = choose|j: int| 0 <= j < b.len() && b[j] == x;
                    assert(after[slot_of(fired[k].deadline)][j] == x);
                }
            }
        }
    } else {
        assert forall|i: int| 0 <= i < slots.len() implies slots[i].take(slots[i].len() as int) == slots[i] by {
            assert(slots[i].take(slots[i].len() as int) =~= slots[i]);
        }
    }
}

/// How many timers with the property `p` are on the wheel when fired ones were added anew.
proof fn lemma_requeued_count(slots: Seq<Seq<TimerEntry>>, fired: Seq<TimerEntry>, n: int, cb: u64, interval: u64)
    requires
        slots.len() == TIMER_WHEEL_SIZE,
        0 <= n <= fired.len(),
        interval > 0,
        forall|k: int| 0 <= k < fired.len() ==> (#[trigger] fired[k]).active && fired[k].repeat == (fired[k].interval > 0),
    ensures
        count_in(requeued(slots, fired, n), slots.len() as int, repeats(cb, interval)) == count_in(
            slots,
            slots.len() as int,
            repeats(cb, interval),
        ) + fired.take(n).filter(repeats(cb, interval)).len(),
    decreases n,
{
    let p = repeats(cb, interval);
    if n > 0 {
        lemma_requeued(slots, fired, n - 1);
        lemma_requeued_count(slots, fired, n - 1, cb, interval);
        let before = requeued(slots, fired, n - 1);
        let t = fired[n - 1];
        let m = TimerEntry::made(t.deadline, t.interval, t.callback_id);
        crate::seqs::lemma_filter_step(fired, n - 1, p);
        if t.repeat {
            let at = slot_of(t.deadline);
            lemma_count_update(before, slots.len() as int, p, at, before[at].push(m));
            lemma_filter_push(before[at], p, m);
            assert(p(m) == p(t));
        }
    } else {
        crate::seqs::lemma_filter_ends(fired, p);
    }
}

/// Of the timers with the property `p`, which are active, some fire and the rest stay.
proof fn lemma_fire_or_stay(s: Seq<TimerEntry>, now: u64, cb: u64, interval: u64, n: int)
    requires
        0 <= n <= s.len(),
    ensures
        s.take(n).filter(repeats(cb, interval)).len() == s.take(n).filter(staying(now)).filter(repeats(cb, interval)).len()
            + s.take(n).filter(firing(now)).map_values(|t: TimerEntry| t.rearmed(now)).filter(repeats(cb, interval)).len(),
    decreases n,
{
    let p = repeats(cb, interval);
    let f = |t: TimerEntry| t.rearmed(now);
    if n > 0 {
        lemma_fire_or_stay(s, now, cb, interval, n - 1);
        let t = s[n - 1];
        crate::seqs::lemma_filter_step(s, n - 1, p);
        crate::seqs::lemma_filter_step(s, n - 1, staying(now));
        crate::seqs::lemma_filter_step(s, n - 1, firing(now));
        let b = s.take(n - 1);
        if t.fires(now) {
            assert(b.filter(firing(now)).push(t).map_values(f) =~= b.filter(firing(now)).map_values(f).push(f(t)));
            lemma_filter_push(b.filter(firing(now)).map_values(f), p, f(t));
            assert(p(f(t)) == p(t));
        } else if t.active {
            lemma_filter_push(b.filter(staying(now)), p, t);
        }
    } else {
        crate::seqs::lemma_filter_ends(s, p);
        crate::seqs::lemma_filter_ends(s, staying(now));
        crate::seqs::lemma_filter_ends(s, firing(now));
        let e = Seq::<TimerEntry>::empty();
        crate::seqs::lemma_filter_ends(e, p);
        assert(e.take(0) =~= e);
        assert(e.map_values(f) =~= e);
    }
}

/// A repeating timer that fires is on the wheel again: as an active timer with the same callback
/// and the same interval, due that interval after the time at which it fired.
pub proof fn law_repeating_timer_is_set_anew(slots: Seq<Seq<TimerEntry>>, slot: int, now: u64, j: int)
    requires
        slots.len() == TIMER_WHEEL_SIZE,
        regular(slots),
        0 <= slot < slots.len(),
        0 <= j < slots[slot].len(),
        slots[slot][j].active,
        now > slots[slot][j].deadline,
        slots[slot][j].repeat,
        now + slots[slot][j].interval <= u64::MAX,
    ensures
        ({
            let t = slots[slot][j];
            let next = (now + t.interval) as u64;
            turned(slots, slot, now)[next as int % TIMER_WHEEL_SIZE as int].contains(
                TimerEntry {
                    deadline: next,
                    interval: t.interval,
                    callback_id: t.callback_id,
                    active: true,
                    repeat: true,
                },
            )
        }),
{
    let here = slots[slot];
    let t = here[j];
    let fired = fired_at(slots, slot, now);
    law_due_timer_fires(slots, slot, now, j);
    let k = choose|k: int| 0 <= k < fired.len() && fired[k] == t.rearmed(now);
    lemma_requeued(slots.update(slot, here.filter(staying(now))), fired, fired.len() as int);
    assert(fired[k].repeat);
}

/// Turning the wheel neither loses nor multiplies repeating timers: of each callback and interval
/// there are as many active ones afterwards as before.
pub proof fn law_repeating_timers_last(slots: Seq<Seq<TimerEntry>>, slot: int, now: u64, cb: u64, interval: u64)
    requires
        slots.len() == TIMER_WHEEL_SIZE,
        regular(slots),
        0 <= slot < slots.len(),
        interval > 0,
    ensures
        count_in(turned(slots, slot, now), TIMER_WHEEL_SIZE as int, repeats(cb, interval)) == count_in(
            slots,
            TIMER_WHEEL_SIZE as int,
            repeats(cb, interval),
        ),
{
    let p = repeats(cb, interval);
    let here = slots[slot];
    let due = here.filter(firing(now));
    let fired = fired_at(slots, slot, now);
    let kept = slots.update(slot, here.filter(staying(now)));
    crate::seqs::lemma_filter_contains(here, firing(now));
    assert forall|k: int| 0 <= k < fired.len() implies (#[trigger] fired[k]).active && fired[k].repeat == (fired[k].interval > 0) by {
        assert(due.contains(due[k]));
        let x = choose|x: int| 0 <= x < here.len() && here[x] == due[k];
        assert(slots[slot][x].repeat == (slots[slot][x].interval > 0));
        assert(firing(now)(due[k]));
        assert(fired[k] == due[k].rearmed(now));
    }
    lemma_requeued_count(kept, fired, fired.len() as int, cb, interval);
    lemma_count_update(slots, slots.len() as int, p, slot, here.filter(staying(now)));
    lemma_fire_or_stay(here, now, cb, interval, here.len() as int);
    assert(here.take(here.len() as int) =~= here);
    assert(fired.take(fired.len() as int) =~= fired);
}

/// A timer that is not due yet stays where it is, and one that fires once and has fired is gone
/// from its slot.
pub proof fn law_timers_wait_their_time(slots: Seq<Seq<TimerEntry>>, slot: int, now: u64, i: int, j: int)
    requires
        slots.len() == TIMER_WHEEL_SIZE,
        placed(slots),
        0 <= slot < slots.len(),
        0 <= i < slots.len(),
        0 <= j < slots[i].len(),
        slots[i][j].active,
    ensures
        i != slot || now <= slots[i][j].deadline ==> turned(slots, slot, now)[i].contains(slots[i][j]),
        i == slot && now > slots[i][j].deadline && rearmable(slots[slot], now) ==> !turned(slots, slot, now)[i].contains(
            slots[i][j],
        ),
{
    let t = slots[i][j];
    let here = slots[slot];
    let fired = fired_at(slots, slot, now);
    let rest = here.filter(staying(now));
    let kept = slots.update(slot, rest);
    let after = turned(slots, slot, now);
    lemma_requeued(kept, fired, fired.len() as int);
    crate::seqs::lemma_filter_contains(here, staying(now));
    if i != slot || now <= t.deadline {
        if i == slot {
            assert(here.contains(t));
            assert(rest.contains(t));
        } else {
            assert(kept[i][j] == t);
        }
        let m = choose|m: int| 0 <= m < kept[i].len() && kept[i][m] == t;
        assert(after[i].take(kept[i].len() as int)[m] == t);
        assert(after[i][m] == t);
    } else if rearmable(here, now) {
        crate::seqs::lemma_filter_contains(here, firing(now));
        let due = here.filter(firing(now));
        assert forall|k: int| 0 <= k < fired.len() && (#[trigger] fired[k]).repeat implies fired[k].deadline >= now by {
            assert(due.contains(due[k]));
            let x = choose|x: int| 0 <= x < here.len() && here[x] == due[k];
            assert(here[x].fires(now));
            assert(fired[k] == due[k].rearmed(now));
        }
        lemma_requeued_late(kept, fired, fired.len() as int, now, i);
        if after[i].contains(t) {
            let m = choose|m: int| 0 <= m < after[i].len() && after[i][m] == t;
            if m < kept[i].len() {
                assert(after[i].take(kept[i].len() as int)[m] == t);
                assert(rest.contains(t));
                assert(staying(now)(t));
            }
        }
    }
}

/// Timers that were added anew are not due before their time.
proof fn lemma_requeued_late(slots: Seq<Seq<TimerEntry>>, fired: Seq<TimerEntry>, n: int, now: u64, i: int)
    requires
        slots.len() == TIMER_WHEEL_SIZE,
        0 <= i < slots.len(),
        0 <= n <= fired.len(),
        forall|k: int| 0 <= k < fired.len() && (#[trigger] fired[k]).repeat ==> fired[k].deadline >= now,
    ensures
        requeued(slots, fired, n).len() == slots.len(),
        forall|m: int|
            slots[i].len() <= m < requeued(slots, fired, n)[i].len() ==> (#[trigger] requeued(slots, fired, n)[i][m]).deadline >= now,
    decreases n,
{
    if n > 0 {
        lemma_requeued_late(slots, fired, n - 1, now, i);
        let before = requeued(slots, fired, n - 1);
        let after = requeued(slots, fired, n);
        assert(fired[n - 1].repeat ==> fired[n - 1].deadline >= now);
        assert forall|m: int| slots[i].len() <= m < after[i].len() implies (#[trigger] after[i][m]).deadline >= now by {
            if m < before[i].len() {
                assert(after[i][m] == before[i][m]);
            }
        }
    }
}

/// A timer that was added fires when the wheel stands at the slot of its deadline and that has
/// passed: once as it is, or, if it repeats, with its next deadline. All timers that were on the
/// wheel still are.
pub proof fn law_added_timer_fires(slots: Seq<Seq<TimerEntry>>, t: TimerEntry, now: u64, i: int, j: int)
    requires
        slots.len() == TIMER_WHEEL_SIZE,
        t.active,
        now > t.deadline,
        t.repeat ==> now + t.interval <= u64::MAX,
        0 <= i < slots.len(),
        0 <= j < slots[i].len(),
    ensures
        fired_at(added(slots, t), t.deadline as int % TIMER_WHEEL_SIZE as int, now).contains(
            TimerEntry {
                deadline: if t.repeat {
                    (now + t.interval) as u64
                } else {
                    t.deadline
                },
                ..t
            },
        ),
        added(slots, t)[i].contains(slots[i][j]),
{
    let at = slot_of(t.deadline);
    let after = added(slots, t);
    let n = slots[at].len() as int;
    assert(after[at][n] == t);
    law_due_timer_fires(after, at, now, n);
    assert(after[i][j] == slots[i][j]);
}

/// The wheel comes to the slot of any deadline within one turn.
pub proof fn law_slot_comes_round(current: int, deadline: u64)
    requires
        0 <= current < TIMER_WHEEL_SIZE,
    ensures
        exists|k: int| 1 <= k <= TIMER_WHEEL_SIZE && #[trigger] (current + k) % TIMER_WHEEL_SIZE as int == slot_of(deadline),
{
    let d = slot_of(deadline);
    let k = if d > current { d - current } else { d - current + TIMER_WHEEL_SIZE };
    assert((current + k) % TIMER_WHEEL_SIZE as int == d);
}

/// An active timer that calls `cb`.
pub open spec fn calling(cb: u64) -> spec_fn(TimerEntry) -> bool {
    |t: TimerEntry| t.active && t.callback_id == cb
}

proof fn lemma_filter_set(s: Seq<TimerEntry>, p: spec_fn(TimerEntry) -> bool, j: int, t: TimerEntry, n: int)
    requires
        0 <= j < s.len(),
        0 <= n <= s.len(),
    ensures
        s.update(j, t).take(n).filter(p).len() == s.take(n).filter(p).len() + (if j < n {
            (if p(t) { 1int } else { 0 }) - (if p(s[j]) { 1int } else { 0 })
        } else {
            0
        }),
    decreases n,
{
    let u = s.update(j, t);
    if n > 0 {
        lemma_filter_set(s, p, j, t, n - 1);
        crate::seqs::lemma_filter_step(s, n - 1, p);
        crate::seqs::lemma_filter_step(u, n - 1, p);
    } else {
        crate::seqs::lemma_filter_ends(s, p);
        crate::seqs::lemma_filter_ends(u, p);
    }
}

/// Cancelling takes one active timer of the callback away if there is one, and says so; timers of
/// other callbacks stay active, and a timer that was cancelled does not fire.
pub proof fn law_cancelled_timer_is_gone(
    slots: Seq<Seq<TimerEntry>>,
    cb: u64,
    found: bool,
    after: Seq<Seq<TimerEntry>>,
    other: u64,
)
    requires
        slots.len() == TIMER_WHEEL_SIZE,
        cancelled(slots, cb, found, after),
        other != cb,
    ensures
        ({
            let n = TIMER_WHEEL_SIZE as int;
            &&& found ==> count_in(after, n, calling(cb)) == count_in(slots, n, calling(cb)) - 1
            &&& !found ==> count_in(slots, n, calling(cb)) == 0 && after == slots
            &&& count_in(after, n, calling(other)) == count_in(slots, n, calling(other))
        }),
{
    let n = TIMER_WHEEL_SIZE as int;
    if found {
        let (i, j) = choose|i: int, j: int|
            #![trigger calls(slots, cb, i, j)]
            first_call(slots, cb, i, j) && after == slots.update(
                i,
                slots[i].update(j, TimerEntry { active: false, ..slots[i][j] }),
            );
        let s = slots[i];
        let t = TimerEntry { active: false, ..s[j] };
        let m = s.len() as int;
        assert(s.take(m) =~= s);
        assert(s.update(j, t).take(m) =~= s.update(j, t));
        lemma_filter_set(s, calling(cb), j, t, m);
        lemma_filter_set(s, calling(other), j, t, m);
        lemma_count_update(slots, n, calling(cb), i, s.update(j, t));
        lemma_count_update(slots, n, calling(other), i, s.update(j, t));
    } else {
        lemma_none_calls(slots, cb, n);
    }
}

proof fn lemma_none_calls(slots: Seq<Seq<TimerEntry>>, cb: u64, n: int)
    requires
        0 <= n <= slots.len(),
        forall|i: int, j: int| !#[trigger] calls(slots, cb, i, j),
    ensures
        count_in(slots, n, calling(cb)) == 0,
    decreases n,
{
    if n > 0 {
        lemma_none_calls(slots, cb, n - 1);
        let s = slots[n - 1];
        let f = s.filter(calling(cb));
        crate::seqs::lemma_filter_contains(s, calling(cb));
        if f.len() > 0 {
            assert(f.contains(f[0]));
            let j = choose|j: int| 0 <= j < s.len() && s[j] == f[0];
            assert(calls(slots, cb, n - 1, j));
        }
    }
}

/// Each active timer that is put on the wheel counts for one more, and an inactive one does not
/// count.
pub proof fn law_active_timers_count(slots: Seq<Seq<TimerEntry>>, i: int, t: TimerEntry, n: int)
    requires
        0 <= i < slots.len(),
        0 <= n <= slots.len(),
    ensures
        active_in(slots.update(i, slots[i].push(t)), n) == active_in(slots, n) + (if t.active && i < n {
            1int
        } else {
            0
        }),
    decreases n,
{
    if n > 0 {
        law_active_timers_count(slots, i, t, n - 1);
        let s = slots[i].push(t);
        reveal(Seq::filter);
        assert(s.drop_last() =~= slots[i]);
    }
}

impl TimerEntry {
    /// The deadline has passed.
    pub open spec fn is_over(self, now: u64) -> bool {
        now > self.deadline
    }

    /// How long it is until the deadline.
    pub open spec fn time_left(self, now: u64) -> int {
        if now >= self.deadline {
            0
        } else {
            self.deadline - now
        }
    }
}

/// As time goes by, as much less of it is left until a deadline. A timer is over when none has been left
/// for a while, and stays so.
pub proof fn law_time_runs_out(t: TimerEntry, now: u64, passed: u64)
    requires
        now + passed <= u64::MAX,
    ensures
        passed <= t.time_left(now) ==> t.time_left((now + passed) as u64) == t.time_left(now) - passed,
        passed > t.time_left(now) ==> t.is_over((now + passed) as u64),
        t.time_left(now) > 0 ==> !t.is_over(now),
        t.is_over(now) ==> t.is_over((now + passed) as u64) && t.time_left(now) == 0,
{
}

} // verus!
