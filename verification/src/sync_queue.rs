//! Event buses and wait queues.
//!
//! Threads and callbacks live outside the library and are named by numbers. Where a thread has to
//! sleep or to be woken, and where callbacks have to run, the functions say so in their results.

use vstd::prelude::*;

verus! {

/// Bits of an event set.
pub struct EvFlag;

impl EvFlag {
    /// Something can be read.
    pub const READABLE: u32 = 1;
    /// Something can be written.
    pub const WRITABLE: u32 = 2;
    /// An error came up.
    pub const ERROR: u32 = 4;
    /// The other end is gone.
    pub const CLOSED: u32 = 8;
    /// The process ended.
    pub const PROC_QUIT: u32 = 1024;
    /// A child process ended.
    pub const CHILD_QUIT: u32 = 2048;
    /// A signal came in.
    pub const RECV_SIG: u32 = 4096;
    /// The semaphore was removed.
    pub const SEM_RM: u32 = 1048576;
    /// The semaphore can be taken.
    pub const SEM_ACQ: u32 = 2097152;
}

/// Names a subscribed callback. The callback is handed an event set and says whether it is done.
pub type EvCb = u64;

/// A set of events and those who want to hear of its changes.
pub struct EvBus {
    /// Events that are on.
    pub ev: u32,
    /// Subscribed callbacks, in the order of their subscription.
    pub cbs: Vec<EvCb>,
    /// Event sets that the callbacks have still to be told of, oldest first.
    pub due: Vec<u32>,
}

/// The state of a bus.
#[verifier::ext_equal]
pub struct EvState {
    /// Events that are on.
    pub ev: u32,
    /// Subscribed callbacks.
    pub cbs: Seq<EvCb>,
    /// Event sets that the callbacks have still to be told of.
    pub due: Seq<u32>,
}

impl EvState {
    /// A bus without events and subscribers.
    pub open spec fn quiet() -> EvState {
        EvState { ev: 0, cbs: Seq::empty(), due: Seq::empty() }
    }

    /// With the events `rst` off and the events `s` on. Subscribers are owed the new set if it
    /// differs from the old one.
    pub open spec fn changed_by(self, rst: u32, s: u32) -> EvState {
        let ev = (self.ev & !rst) | s;
        EvState {
            ev,
            due: if ev != self.ev && self.cbs.len() > 0 {
                self.due.push(ev)
            } else {
                self.due
            },
            ..self
        }
    }

    /// With the events `rst` off. Subscribers are owed the new set in any case.
    pub open spec fn retold(self, rst: u32) -> EvState {
        let ev = self.ev & !rst;
        EvState {
            ev,
            due: if self.cbs.len() > 0 {
                self.due.push(ev)
            } else {
                self.due
            },
            ..self
        }
    }
}

/// What is kept of `s` where `gone` is not set.
pub open spec fn kept_where(s: Seq<u64>, gone: Seq<bool>) -> Seq<u64>
    decreases s.len(),
{
    if s.len() == 0 {
        s
    } else {
        let k = kept_where(s.drop_last(), gone);
        if gone[s.len() - 1] {
            k
        } else {
            k.push(s.last())
        }
    }
}

impl EvBus {
    /// The state of the bus.
    pub open spec fn view(&self) -> EvState {
        EvState { ev: self.ev, cbs: self.cbs@, due: self.due@ }
    }

    /// A bus without events and subscribers.
    pub fn make() -> (b: Self)
        ensures
            b@ == EvState::quiet(),
            b.ev == 0,
            b.cbs@ == Seq::<EvCb>::empty(),
            b.due@ == Seq::<u32>::empty(),
    {
        EvBus { ev: 0, cbs: Vec::new(), due: Vec::new() }
    }

    /// The bus after the events `rst` went off and the events `s` came on. Subscribers are owed
    /// the new set if it differs from the old one.
    pub open spec fn changed(self, rst: u32, s: u32, after: EvBus) -> bool {
        &&& after.ev == (self.ev & !rst) | s
        &&& after.cbs == self.cbs
        &&& after.due@ == (if after.ev != self.ev && self.cbs@.len() > 0 {
            self.due@.push(after.ev)
        } else {
            self.due@
        })
    }

    /// Turns the events `s` on.
    pub fn set(&mut self, s: u32)
        ensures
            old(self).changed(0, s, *final(self)),
            final(self)@ == old(self)@.changed_by(0, s),
            final(self).ev == old(self).ev | s,
    {
        let ghost e = self.ev;
        assert((e & !0u32) | s == e | s) by (bit_vector);
        self.change(0, s);
    }

    /// Turns the events `s` off.
    pub fn clear(&mut self, s: u32)
        ensures
            old(self).changed(s, 0, *final(self)),
            final(self)@ == old(self)@.changed_by(s, 0),
            final(self).ev == old(self).ev & !s,
    {
        let ghost e = self.ev;
        assert((e & !s) | 0u32 == e & !s) by (bit_vector);
        self.change(s, 0);
    }

    /// Turns the events `rst` off and then the events `s` on.
    pub fn change(&mut self, rst: u32, s: u32)
        ensures
            old(self).changed(rst, s, *final(self)),
            final(self)@ == old(self)@.changed_by(rst, s),
    {
        let orig: u32 = self.ev;
        self.ev = (self.ev & !rst) | s;
        if self.ev != orig && self.cbs.len() > 0 {
            let ev: u32 = self.ev;
            self.due.push(ev);
        }
    }

    /// Turns the events `rst` off and tells the subscribers, whether that changed anything or not.
    pub fn retell(&mut self, rst: u32)
        ensures
            final(self)@ == old(self)@.retold(rst),
    {
        self.ev = self.ev & !rst;
        if self.cbs.len() > 0 {
            let ev: u32 = self.ev;
            self.due.push(ev);
        }
    }

    /// Adds a subscriber.
    pub fn sub(&mut self, cb: EvCb)
        ensures
            final(self).cbs@ == old(self).cbs@.push(cb),
            final(self).ev == old(self).ev,
            final(self).due == old(self).due,
    {
        self.cbs.push(cb);
    }

    /// Number of subscribers.
    pub fn cb_len(&self) -> (n: usize)
        ensures
            n == self.cbs@.len(),
    {
        self.cbs.len()
    }

    /// Takes the oldest event set that is owed; every subscriber is to be called with it.
    pub fn next_due(&mut self) -> (r: Option<u32>)
        ensures
            old(self).due@.len() == 0 ==> r is None && *final(self) == *old(self),
            old(self).due@.len() > 0 ==> {
                &&& r == Some(old(self).due@[0])
                &&& final(self).due@ == old(self).due@.drop_first()
                &&& final(self).ev == old(self).ev
                &&& final(self).cbs == old(self).cbs
            },
    {
        if self.due.len() == 0 {
            None
        } else {
            let e: u32 = self.due.remove(0);
            assert(self.due@ =~= old(self).due@.drop_first());
            Some(e)
        }
    }

    /// Drops the subscribers whose callbacks said that they are done.
    pub fn retire(&mut self, done: &[bool])
        requires
            done@.len() == old(self).cbs@.len(),
        ensures
            final(self).cbs@ == kept_where(old(self).cbs@, done@),
            final(self).ev == old(self).ev,
            final(self).due == old(self).due,
    {
        let mut kept: Vec<EvCb> = Vec::new();
        let mut i: usize = 0;
        while i < self.cbs.len()
            invariant
                i <= self.cbs@.len(),
                done@.len() == self.cbs@.len(),
                self.cbs == old(self).cbs,
                self.ev == old(self).ev,
                self.due == old(self).due,
                kept@ == kept_where(self.cbs@.take(i as int), done@),
            decreases self.cbs@.len() - i,
        {
            if !done[i] {
                kept.push(self.cbs[i]);
            }
            i += 1;
            assert(self.cbs@.take(i as int).drop_last() =~= self.cbs@.take(i - 1));
        }
        assert(self.cbs@.take(i as int) =~= self.cbs@);
        self.cbs = kept;
    }
}

impl Default for EvBus {
    fn default() -> (b: Self)
        ensures
            b.ev == 0,
            b.cbs@ == Seq::<EvCb>::empty(),
            b.due@ == Seq::<u32>::empty(),
    {
        EvBus::make()
    }
}

/// One look at the bus: the event set if it meets `mask`; otherwise the caller yields and looks
/// again.
pub fn wait_ev(bus: &EvBus, mask: u32) -> (r: Option<u32>)
    ensures
        r == (if bus.ev & mask != 0 { Some(bus.ev) } else { None }),
{
    if (bus.ev & mask) != 0 {
        Some(bus.ev)
    } else {
        None
    }
}

/// A descriptor that an epoll instance watches.
#[derive(Clone, Copy, PartialEq, Eq, Structural)]
pub struct RegEp {
    /// Task that owns the instance.
    pub task_id: u64,
    /// Descriptor of the instance.
    pub epfd: u64,
    /// Watched descriptor.
    pub fd: u64,
}

/// What a thread that wants to wait has to do.
#[derive(Clone, Copy, PartialEq, Eq, Structural, Debug)]
pub enum ParkStep {
    /// The condition holds: go on.
    Satisfied,
    /// A wake-up was left over and is now used: look at the condition once more and go on.
    Recheck,
    /// The thread is queued: sleep, then look at the condition once more and go on.
    Park,
}

/// Threads that wait for each other.
///
/// A wake-up that finds nobody waiting is counted in `epoch` and spares the next waiter its
/// sleep, so that it is not lost.
pub struct SyncQueue {
    /// Waiting threads, the longest waiting first.
    pub q: Vec<u64>,
    /// Epoll registrations.
    pub eq: Vec<RegEp>,
    /// Wake-ups that found nobody.
    pub epoch: u64,
}

/// Waiting threads and unused wake-ups.
pub struct WaitState {
    pub waiting: Seq<u64>,
    pub epoch: u64,
}

impl WaitState {
    /// After one wake-up.
    pub open spec fn signalled(self) -> WaitState {
        if self.waiting.len() == 0 {
            WaitState { waiting: self.waiting, epoch: self.epoch.wrapping_add(1) }
        } else {
            WaitState { waiting: self.waiting.drop_first(), epoch: self.epoch }
        }
    }

    /// What a thread has to do that wants to wait while its condition is `satisfied` or not.
    pub open spec fn park_step(self, satisfied: bool) -> ParkStep {
        if satisfied {
            ParkStep::Satisfied
        } else if self.epoch > 0 {
            ParkStep::Recheck
        } else {
            ParkStep::Park
        }
    }

    /// After thread `th` asked to wait.
    pub open spec fn parked(self, th: u64, satisfied: bool) -> WaitState {
        match self.park_step(satisfied) {
            ParkStep::Satisfied => self,
            ParkStep::Recheck => WaitState { waiting: self.waiting, epoch: (self.epoch - 1) as u64 },
            ParkStep::Park => WaitState { waiting: self.waiting.push(th), epoch: self.epoch },
        }
    }
}

/// Where `r` is first registered in `s`, if it is.
pub open spec fn first_reg(s: Seq<RegEp>, r: RegEp, i: int) -> bool {
    0 <= i < s.len() && s[i] == r && (forall|j: int| 0 <= j < i ==> s[j] != r)
}

impl SyncQueue {
    /// Waiting threads and unused wake-ups.
    pub open spec fn state(&self) -> WaitState {
        WaitState { waiting: self.q@, epoch: self.epoch }
    }

    /// An empty queue.
    pub fn new() -> (s: Self)
        ensures
            s.q@ == Seq::<u64>::empty(),
            s.eq@ == Seq::<RegEp>::empty(),
            s.epoch == 0,
    {
        SyncQueue { q: Vec::new(), eq: Vec::new(), epoch: 0 }
    }

    /// Thread `th` wants to wait for a condition that is now `satisfied` or not.
    pub fn park_on(&mut self, th: u64, satisfied: bool) -> (step: ParkStep)
        ensures
            step == old(self).state().park_step(satisfied),
            final(self).state() == old(self).state().parked(th, satisfied),
            final(self).eq == old(self).eq,
    {
        if satisfied {
            return ParkStep::Satisfied;
        }
        if self.epoch > 0 {
            self.epoch = self.epoch - 1;
            return ParkStep::Recheck;
        }
        self.q.push(th);
        ParkStep::Park
    }

    /// Wakes the longest waiting thread, or keeps the wake-up for later. Returns the thread to be
    /// woken.
    pub fn signal(&mut self) -> (r: Option<u64>)
        ensures
            r == (if old(self).q@.len() == 0 { None } else { Some(old(self).q@[0]) }),
            final(self).state() == old(self).state().signalled(),
            final(self).eq == old(self).eq,
    {
        if self.q.len() == 0 {
            self.epoch = self.epoch.wrapping_add(1);
            None
        } else {
            let t: u64 = self.q.remove(0);
            assert(self.q@ =~= old(self).q@.drop_first());
            Some(t)
        }
    }

    /// Wakes all waiting threads, or keeps one wake-up for later. Returns the threads to be woken.
    pub fn broadcast(&mut self) -> (woken: Vec<u64>)
        ensures
            woken@ == old(self).q@,
            final(self).q@ == Seq::<u64>::empty(),
            final(self).epoch == (if old(self).q@.len() == 0 {
                old(self).epoch.wrapping_add(1)
            } else {
                old(self).epoch
            }),
            final(self).eq == old(self).eq,
    {
        let mut batch: Vec<u64> = Vec::new();
        std::mem::swap(&mut batch, &mut self.q);
        if batch.len() == 0 {
            self.epoch = self.epoch.wrapping_add(1);
        }
        batch
    }

    /// Wakes the `n` longest waiting threads, or all where there are fewer. Returns the threads
    /// to be woken.
    pub fn signal_n(&mut self, n: usize) -> (woken: Vec<u64>)
        ensures
            ({
                let k = if n < old(self).q@.len() { n as int } else { old(self).q@.len() as int };
                &&& woken@ == old(self).q@.take(k)
                &&& final(self).q@ == old(self).q@.skip(k)
            }),
            final(self).epoch == old(self).epoch,
            final(self).eq == old(self).eq,
    {
        let avail = self.q.len();
        let to_wake: usize = if n < avail {
            n
        } else {
            avail
        };
        let ghost all = self.q@;
        let mut woken: Vec<u64> = Vec::new();
        let mut i: usize = 0;
        while i < to_wake
            invariant
                i <= to_wake <= all.len(),
                woken@ == all.take(i as int),
                self.q@ == all.skip(i as int),
                self.epoch == old(self).epoch,
                self.eq == old(self).eq,
            decreases to_wake - i,
        {
            woken.push(self.q.remove(0));
            i += 1;
            assert(woken@ =~= all.take(i as int));
            assert(self.q@ =~= all.skip(i as int));
        }
        woken
    }

    /// Number of waiting threads.
    pub fn pending(&self) -> (n: usize)
        ensures
            n == self.q@.len(),
    {
        self.q.len()
    }

    /// One turn of a wait for `cond`: a decision is handed through; without one thread `th` is
    /// queued and is to sleep and ask again.
    pub fn wait_ev(&mut self, th: u64, cond: Option<bool>) -> (r: Option<bool>)
        ensures
            r == cond,
            cond is Some ==> *final(self) == *old(self),
            cond is None ==> final(self).q@ == old(self).q@.push(th) && final(self).epoch == old(self).epoch
                && final(self).eq == old(self).eq,
    {
        if cond.is_none() {
            self.q.push(th);
        }
        cond
    }

    /// As [`SyncQueue::wait_ev`], with the thread queued everywhere.
    pub fn wait_events(queues: &mut Vec<SyncQueue>, th: u64, cond: Option<bool>) -> (r: Option<bool>)
        ensures
            r == cond,
            cond is Some ==> *final(queues) == *old(queues),
            cond is None ==> final(queues)@.len() == old(queues)@.len() && (forall|i: int|
                0 <= i < old(queues)@.len() ==> {
                    &&& (#[trigger] final(queues)@[i]).q@ == old(queues)@[i].q@.push(th)
                    &&& final(queues)@[i].epoch == old(queues)@[i].epoch
                    &&& final(queues)@[i].eq == old(queues)@[i].eq
                }),
    {
        if cond.is_some() {
            return cond;
        }
        let mut i: usize = 0;
        while i < queues.len()
            invariant
                i <= queues@.len(),
                queues@.len() == old(queues)@.len(),
                forall|k: int| i <= k < queues@.len() ==> queues@[k] == old(queues)@[k],
                forall|k: int|
                    0 <= k < i ==> {
                        &&& (#[trigger] queues@[k]).q@ == old(queues)@[k].q@.push(th)
                        &&& queues@[k].epoch == old(queues)@[k].epoch
                        &&& queues@[k].eq == old(queues)@[k].eq
                    },
            decreases queues@.len() - i,
        {
            queues[i].q.push(th);
            i += 1;
        }
        cond
    }

    /// Queues thread `th`, which is then to let go of its guard and to sleep.
    pub fn wait_guard(&mut self, th: u64)
        ensures
            final(self).q@ == old(self).q@.push(th),
            final(self).epoch == old(self).epoch,
            final(self).eq == old(self).eq,
    {
        self.q.push(th);
    }

    /// Queues thread `th`, which is then to sleep for a bounded time. The wait always counts as a
    /// success.
    pub fn wait_timeout(&mut self, th: u64) -> (b: bool)
        ensures
            b,
            final(self).q@ == old(self).q@.push(th),
            final(self).epoch == old(self).epoch,
            final(self).eq == old(self).eq,
    {
        self.q.push(th);
        true
    }

    /// Registers a descriptor with an epoll instance.
    pub fn reg_epoll(&mut self, task_id: u64, epfd: u64, fd: u64)
        ensures
            final(self).eq@ == old(self).eq@.push(RegEp { task_id, epfd, fd }),
            final(self).q == old(self).q,
            final(self).epoch == old(self).epoch,
    {
        self.eq.push(RegEp { task_id, epfd, fd });
    }

    /// Takes back the first such registration; `false` where there is none.
    pub fn unreg_epoll(&mut self, task_id: u64, epfd: u64, fd: u64) -> (b: bool)
        ensures
            b == old(self).eq@.contains(RegEp { task_id, epfd, fd }),
            b ==> exists|i: int|
                #[trigger] first_reg(old(self).eq@, RegEp { task_id, epfd, fd }, i) && final(self).eq@ == old(self).eq@.remove(i),
            !b ==> final(self).eq == old(self).eq,
            final(self).q == old(self).q,
            final(self).epoch == old(self).epoch,
    {
        let r = RegEp { task_id, epfd, fd };
        let mut i: usize = 0;
        while i < self.eq.len()
            invariant
                i <= self.eq@.len(),
                *self == *old(self),
                r == (RegEp { task_id, epfd, fd }),
                forall|j: int| 0 <= j < i ==> self.eq@[j] != r,
            decreases self.eq@.len() - i,
        {
            if self.eq[i] == r {
                assert(first_reg(self.eq@, r, i as int));
                let _gone = self.eq.remove(i);
                return true;
            }
            i += 1;
        }
        false
    }
}

/// No wake-up is lost: one that comes before anybody waits spares the next waiter its sleep, and
/// is then used up.
pub proof fn law_no_lost_wakeup(s: WaitState, th: u64)
    requires
        s.waiting.len() == 0,
        s.epoch < u64::MAX,
    ensures
        s.signalled().park_step(false) == ParkStep::Recheck,
        s.signalled().parked(th, false) == s,
{
}

/// Waiters are woken in the order in which they came.
pub proof fn law_wake_order(s: WaitState, first: u64, second: u64)
    requires
        s.waiting.len() == 0,
        s.epoch == 0,
    ensures
        ({
            let both = s.parked(first, false).parked(second, false);
            &&& both.waiting == seq![first, second]
            &&& both.signalled().waiting == seq![second]
            &&& both.signalled().signalled() == s
        }),
{
    let both = s.parked(first, false).parked(second, false);
    assert(both.waiting =~= seq![first, second]);
    assert(both.signalled().waiting =~= seq![second]);
    assert(both.signalled().signalled().waiting =~= s.waiting);
}

/// Of the callbacks just those that are done are retired, and the others stay in their order.
pub proof fn law_done_callbacks_retire(s: Seq<u64>, gone: Seq<bool>)
    requires
        s.len() <= gone.len(),
    ensures
        (forall|i: int| 0 <= i < s.len() ==> !#[trigger] gone[i]) ==> kept_where(s, gone) == s,
        (forall|i: int| 0 <= i < s.len() ==> #[trigger] gone[i]) ==> kept_where(s, gone).len() == 0,
        forall|x: u64|
            kept_where(s, gone).contains(x) <==> exists|i: int| 0 <= i < s.len() && #[trigger] s[i] == x && !gone[i],
    decreases s.len(),
{
    if s.len() > 0 {
        let t = s.drop_last();
        let n = s.len() - 1;
        let k = kept_where(t, gone);
        law_done_callbacks_retire(t, gone);
        assert(t.push(s.last()) =~= s);
        assert forall|x: u64|
            kept_where(s, gone).contains(x) <==> exists|i: int| 0 <= i < s.len() && #[trigger] s[i] == x && !gone[i] by {
            if kept_where(s, gone).contains(x) {
                let j = choose|j: int| 0 <= j < kept_where(s, gone).len() && kept_where(s, gone)[j] == x;
                if !gone[n] && j == k.len() {
                    assert(s[n] == x);
                } else {
                    assert(k[j] == x);
                    assert(k.contains(x));
                    let i = choose|i: int| 0 <= i < t.len() && #[trigger] t[i] == x && !gone[i];
                    assert(s[i] == x);
                }
            }
            if exists|i: int| 0 <= i < s.len() && #[trigger] s[i] == x && !gone[i] {
                let i = choose|i: int| 0 <= i < s.len() && #[trigger] s[i] == x && !gone[i];
                if i < n {
                    assert(t[i] == x);
                    assert(k.contains(x));
                    let j = choose|j: int| 0 <= j < k.len() && k[j] == x;
                    assert(kept_where(s, gone)[j] == x);
                } else {
                    assert(kept_where(s, gone)[k.len() as int] == x);
                }
            }
        }
    }
}

/// Registering with an epoll instance is undone by unregistering.
pub proof fn law_unregistering_undoes(eq: Seq<RegEp>, r: RegEp, i: int)
    requires
        !eq.contains(r),
        first_reg(eq.push(r), r, i),
    ensures
        eq.push(r).contains(r),
        eq.push(r).remove(i) == eq,
{
    assert(eq.push(r)[eq.len() as int] == r);
    if i < eq.len() {
        assert(eq[i] == r);
    }
    assert(eq.push(r).remove(i) =~= eq);
}

} // verus!
