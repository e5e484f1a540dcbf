//! The scheduler: where a task goes, and which one runs next.

use vstd::prelude::*;
use crate::consts::{PRIO_DEFAULT, SCHED_NORMAL};
use std::cmp::Ordering;

verus! {

// ---------------------------------------------------------------------------------------------
// Load balancing
// ---------------------------------------------------------------------------------------------

/// Entry `i` of a list, or `d` where the list is too short.
pub open spec fn nth_or<T>(s: Seq<T>, i: int, d: T) -> T {
    if 0 <= i < s.len() {
        s[i]
    } else {
        d
    }
}

/// How well CPU `cpu` suits a new task: fewer tasks, a higher priority and no blocked I/O count
/// for it, and so do warm caches and being in the near half.
pub open spec fn cpu_score(tasks: Seq<u64>, prios: Seq<i32>, blocked: Seq<bool>, cpu: int) -> int {
    let tc = tasks[cpu] as int;
    -(tc * 100) + nth_or(prios, cpu, 0i32) * 10 - (if nth_or(blocked, cpu, false) {
        500int
    } else {
        0
    }) + (if tc > 0 {
        50int
    } else {
        0
    }) + (if cpu < tasks.len() as int / 2 {
        10int
    } else {
        -10
    })
}

/// `cpu` is the first of the CPUs with the highest score.
pub open spec fn best_cpu(tasks: Seq<u64>, prios: Seq<i32>, blocked: Seq<bool>, cpu: int) -> bool {
    &&& 0 <= cpu < tasks.len()
    &&& forall|c: int|
        0 <= c < tasks.len() ==> #[trigger] cpu_score(tasks, prios, blocked, c) <= cpu_score(tasks, prios, blocked, cpu)
    &&& forall|c: int| 0 <= c < cpu ==> #[trigger] cpu_score(tasks, prios, blocked, c) < cpu_score(tasks, prios, blocked, cpu)
}

/// Every step in reckoning the score of CPU `cpu` fits a signed word.
pub open spec fn score_fits(tasks: Seq<u64>, prios: Seq<i32>, blocked: Seq<bool>, cpu: int) -> bool {
    let load = -(tasks[cpu] * 100);
    let ranked = load + nth_or(prios, cpu, 0i32) * 10;
    &&& i64::MIN <= load
    &&& i64::MIN <= ranked - (if nth_or(blocked, cpu, false) {
        500int
    } else {
        0
    })
}

/// Picks the CPU for a new task; 0 where there is none.
pub fn compute_load_balance(task_counts: &[u64], priorities: &[i32], io_blocked: &[bool]) -> (cpu: usize)
    requires
        forall|c: int| 0 <= c < task_counts@.len() ==> #[trigger] score_fits(task_counts@, priorities@, io_blocked@, c),
    ensures
        task_counts@.len() == 0 ==> cpu == 0,
        task_counts@.len() > 0 ==> best_cpu(task_counts@, priorities@, io_blocked@, cpu as int),
{
    let ncpu = task_counts.len();
    if ncpu == 0 {
        return 0;
    }
    let mut best: usize = 0;
    let mut best_score: i64 = 0;
    let mut cpu: usize = 0;
    while cpu < ncpu
        invariant
            ncpu == task_counts@.len(),
            ncpu > 0,
            cpu <= ncpu,
            forall|c: int|
                0 <= c < task_counts@.len() ==> #[trigger] score_fits(task_counts@, priorities@, io_blocked@, c),
            best < ncpu,
            cpu > 0 ==> best < cpu && best_score == cpu_score(task_counts@, priorities@, io_blocked@, best as int),
            forall|c: int| 0 <= c < cpu ==> #[trigger] cpu_score(task_counts@, priorities@, io_blocked@, c) <= best_score,
            forall|c: int|
                0 <= c < best && c < cpu ==> #[trigger] cpu_score(task_counts@, priorities@, io_blocked@, c) < best_score,
        decreases ncpu - cpu,
    {
        let tc: u64 = task_counts[cpu];
        assert(score_fits(task_counts@, priorities@, io_blocked@, cpu as int));
        let pr: i64 = if cpu < priorities.len() {
            priorities[cpu] as i64
        } else {
            0
        };
        let blocked = cpu < io_blocked.len() && io_blocked[cpu];
        let load: i64 = (tc * 100) as i64;
        let mut score: i64 = 0 - load;
        score = score + pr * 10;
        if blocked {
            score = score - 500;
        }
        if tc > 0 {
            score = score + 50;
        }
        if cpu < ncpu / 2 {
            score = score + 10;
        } else {
            score = score - 10;
        }
        assert(score == cpu_score(task_counts@, priorities@, io_blocked@, cpu as int));
        if cpu == 0 || score > best_score {
            best = cpu;
            best_score = score;
        }
        cpu += 1;
    }
    best
}

// ---------------------------------------------------------------------------------------------
// Policies
// ---------------------------------------------------------------------------------------------

/// How a task is scheduled.
#[derive(Clone, Copy, PartialEq, Eq, Structural)]
pub struct SchedulePolicy {
    /// Scheduling class.
    pub policy: u8,
    /// Priority; a smaller number is more urgent.
    pub prio: i32,
    /// Nice value.
    pub nice: i32,
    /// Ticks that the task may run at a time.
    pub time_slice: u64,
    /// Time that the task has had, scaled by its weight.
    pub vruntime: u64,
}

impl SchedulePolicy {
    /// The default policy.
    pub fn new() -> (p: Self)
        ensures
            p == (SchedulePolicy { policy: SCHED_NORMAL, prio: PRIO_DEFAULT, nice: 0, time_slice: 10, vruntime: 0 }),
    {
        SchedulePolicy { policy: SCHED_NORMAL, prio: PRIO_DEFAULT, nice: 0, time_slice: 10, vruntime: 0 }
    }

    /// The policy for a priority, which also is the nice value and shortens the time slice.
    pub fn with_prio(prio: i32) -> (p: Self)
        requires
            0 <= prio <= 20,
        ensures
            p == (SchedulePolicy {
                policy: SCHED_NORMAL,
                prio,
                nice: prio,
                time_slice: (20 - prio) as u64,
                vruntime: 0,
            }),
    {
        SchedulePolicy { policy: SCHED_NORMAL, prio, nice: prio, time_slice: (20 - prio) as u64, vruntime: 0 }
    }

    /// The weight that the nice value gives.
    pub open spec fn weight_of(self) -> u64 {
        if self.nice < -10 {
            88761
        } else if self.nice < 0 {
            29154
        } else if self.nice == 0 {
            1024
        } else if self.nice < 10 {
            335
        } else {
            110
        }
    }

    /// The weight that the nice value gives: the greater, the larger the share of the CPU.
    pub fn weight(&self) -> (w: u64)
        ensures
            w == self.weight_of(),
    {
        if self.nice < -10 {
            88761
        } else if self.nice < 0 {
            29154
        } else if self.nice == 0 {
            1024
        } else if self.nice < 10 {
            335
        } else {
            110
        }
    }

    /// Place in the order of the queue: the lower, the sooner.
    pub open spec fn queue_score(self) -> int {
        self.prio * 1000 - self.nice * 50 + crate::utils::signed(self.vruntime) - self.weight_of()
    }

    /// By this the next task is named and taken: the lower, the sooner.
    pub open spec fn take_score(self) -> int {
        self.prio * 1000 + crate::utils::signed(self.vruntime) - self.weight_of()
    }

    /// By this two policies are compared: the lower, the more urgent. The run time counts by
    /// weight.
    pub open spec fn rank_score(self) -> int {
        self.prio * 100 - self.nice * 10 + truncated_div(crate::utils::signed(self.vruntime), self.weight_of() as int)
    }

    fn queue_score_of(&self) -> (s: i128)
        ensures
            s == self.queue_score(),
    {
        self.prio as i128 * 1000 - self.nice as i128 * 50 + crate::utils::to_signed(self.vruntime) as i128 - self.weight() as i128
    }

    fn take_score_of(&self) -> (s: i128)
        ensures
            s == self.take_score(),
    {
        self.prio as i128 * 1000 + crate::utils::to_signed(self.vruntime) as i128 - self.weight() as i128
    }

    fn rank_score_of(&self) -> (s: i64)
        ensures
            s == self.rank_score(),
    {
        let w: i64 = self.weight() as i64;
        let v: i64 = crate::utils::to_signed(self.vruntime);
        let q: i64 = if v >= 0 {
            v / w
        } else if v == i64::MIN {
            // the quotient of the negated value would not fit
            0 - ((0 - (v + w)) / w) - 1
        } else {
            0 - ((0 - v) / w)
        };
        proof {
            let wi = w as int;
            let vi = v as int;
            if v == i64::MIN {
                let m = -(vi + wi);
                assert((m + wi) / wi == m / wi + 1) by {
                    vstd::arithmetic::div_mod::lemma_div_plus_one(m, wi);
                }
            }
            assert(q == truncated_div(vi, wi));
            assert(-0x1_0000_0000_0000_000 <= q <= 0x1_0000_0000_0000_000) by (nonlinear_arith)
                requires
                    q == (if vi >= 0 { vi / wi } else { -((-vi) / wi) }),
                    110 <= wi,
                    -0x8000_0000_0000_0000 <= vi < 0x8000_0000_0000_0000,
            ;
        }
        self.prio as i64 * 100 - self.nice as i64 * 10 + q
    }
}

/// `a / b`, rounded towards zero.
pub open spec fn truncated_div(a: int, b: int) -> int {
    if a >= 0 {
        a / b
    } else {
        -((-a) / b)
    }
}

// ---------------------------------------------------------------------------------------------
// The run queue
// ---------------------------------------------------------------------------------------------

/// A task that waits for a CPU, by id and policy.
pub type Waiting = (u64, SchedulePolicy);

/// The order of the queue.
pub open spec fn queue_key() -> spec_fn(Waiting) -> int {
    |e: Waiting| e.1.queue_score()
}

/// The order in which tasks are named and taken.
pub open spec fn take_key() -> spec_fn(Waiting) -> int {
    |e: Waiting| e.1.take_score()
}

/// The task that is taken next out of `q`: the first of those with the lowest score.
pub open spec fn taken(q: Seq<Waiting>) -> Option<Waiting> {
    if q.len() == 0 {
        None
    } else {
        Some(q[crate::seqs::first_min(q, take_key())])
    }
}

/// What is left of `q` once a task has been taken.
pub open spec fn left(q: Seq<Waiting>) -> Seq<Waiting> {
    if q.len() == 0 {
        q
    } else {
        q.remove(crate::seqs::first_min(q, take_key()))
    }
}

/// The id of the best task of `q`: the first of those with the lowest score.
pub open spec fn named(q: Seq<Waiting>) -> Option<u64> {
    if q.len() == 0 {
        None
    } else {
        Some(q[crate::seqs::first_min(q, take_key())].0)
    }
}

/// The order of run times.
pub open spec fn runtime_key() -> spec_fn(Waiting) -> int {
    |e: Waiting| e.1.vruntime as int
}

/// Not being task `id`.
pub open spec fn not_task(id: u64) -> spec_fn(Waiting) -> bool {
    |e: Waiting| e.0 != id
}

/// `i` is the first place of task `id`.
pub open spec fn first_place(q: Seq<Waiting>, id: u64, i: int) -> bool {
    0 <= i < q.len() && q[i].0 == id && forall|j: int| 0 <= j < i ==> (#[trigger] q[j]).0 != id
}

/// Policy `p` after `ticks` more ticks of CPU time.
pub open spec fn ran(p: SchedulePolicy, ticks: u64) -> SchedulePolicy {
    SchedulePolicy {
        vruntime: ((p.vruntime + ticks * 1024 / p.weight_of() as int) % 0x1_0000_0000_0000_0000) as u64,
        ..p
    }
}

/// The queue after every task in it has been charged `ticks` ticks.
pub open spec fn aged(q: Seq<Waiting>, ticks: u64) -> Seq<Waiting> {
    q.map_values(|e: Waiting| (e.0, ran(e.1, ticks)))
}

/// `s` with the entries at `i` and `j` exchanged.
pub open spec fn exchanged<A>(s: Seq<A>, i: int, j: int) -> Seq<A> {
    s.update(i, s[j]).update(j, s[i])
}

/// `s` after entry `i` has been exchanged, one after the other, with each later entry before `j`
/// that has run for less time.
pub open spec fn lowered(s: Seq<Waiting>, i: int, j: int) -> Seq<Waiting>
    decreases j - i,
{
    if j <= i + 1 {
        s
    } else {
        let t = lowered(s, i, j - 1);
        if t[i].1.vruntime > t[j - 1].1.vruntime {
            exchanged(t, i, j - 1)
        } else {
            t
        }
    }
}

/// `s` after the first `i` entries have been lowered in turn.
pub open spec fn levelled(s: Seq<Waiting>, i: int) -> Seq<Waiting>
    decreases i,
{
    if i <= 0 {
        s
    } else {
        lowered(levelled(s, i - 1), i - 1, s.len() as int)
    }
}

/// The tasks that wait for a CPU, and the one that has it.
pub struct RunQueue {
    /// The waiting tasks.
    pub queue: Vec<Waiting>,
    /// The running task.
    pub current: Option<u64>,
    /// Preemption is off while this is not zero.
    pub preempt_count: u64,
}

/// `v` after `ticks` ticks at weight `w`.
fn charged(v: u64, ticks: u64, w: u64) -> (r: u64)
    requires
        w > 0,
        ticks * 1024 <= u64::MAX,
    ensures
        r == (v + ticks * 1024 / w as int) % 0x1_0000_0000_0000_0000,
{
    let d: u64 = ticks * 1024 / w;
    v.wrapping_add(d)
}

/// How often preemption is off after it was turned off once more.
pub open spec fn held_off(n: u64) -> u64 {
    ((n + 1) % 0x1_0000_0000_0000_0000) as u64
}

/// How often preemption is off after one turning off was taken back.
pub open spec fn let_in(n: u64) -> u64 {
    ((n - 1) % 0x1_0000_0000_0000_0000) as u64
}

impl RunQueue {
    /// An empty queue.
    pub fn new() -> (q: Self)
        ensures
            q.queue@ == Seq::<Waiting>::empty(),
            q.current is None,
            q.preempt_count == 0,
    {
        RunQueue { queue: Vec::new(), current: None, preempt_count: 0 }
    }

    /// Adds a task and puts the queue in order.
    pub fn enqueue(&mut self, task_id: u64, policy: SchedulePolicy)
        ensures
            final(self).queue@ == crate::seqs::stable_sorted(old(self).queue@.push((task_id, policy)), queue_key()),
            crate::seqs::sorted_by(final(self).queue@, queue_key()),
            final(self).queue@.to_multiset() == old(self).queue@.push((task_id, policy)).to_multiset(),
            final(self).current == old(self).current,
            final(self).preempt_count == old(self).preempt_count,
    {
        let ghost whole = self.queue@.push((task_id, policy));
        self.queue.push((task_id, policy));
        let n = self.queue.len();
        let mut sorted: Vec<Waiting> = Vec::new();
        let mut i: usize = 0;
        let ghost key = queue_key();
        assert(whole.take(0) =~= Seq::<Waiting>::empty());
        while i < n
            invariant
                self.queue@ == whole,
                n == whole.len(),
                i <= n,
                key == queue_key(),
                sorted@ == crate::seqs::stable_sorted(whole.take(i as int), key),
                self.current == old(self).current,
                self.preempt_count == old(self).preempt_count,
            decreases n - i,
        {
            let x = self.queue[i];
            let kx: i128 = x.1.queue_score_of();
            let mut p: usize = sorted.len();
            while p > 0 && sorted[p - 1].1.queue_score_of() > kx
                invariant
                    p <= sorted@.len(),
                    key == queue_key(),
                    kx == key(x),
                    forall|k: int| p <= k < sorted@.len() ==> key(#[trigger] sorted@[k]) > kx,
                ensures
                    p <= sorted@.len(),
                    p > 0 ==> key(sorted@[p - 1]) <= kx,
                    forall|k: int| p <= k < sorted@.len() ==> key(#[trigger] sorted@[k]) > kx,
                decreases p,
            {
                p -= 1;
            }
            proof {
                crate::seqs::lemma_place(sorted@, x, key, p as int);
                assert(whole.take(i + 1).drop_last() =~= whole.take(i as int));
            }
            sorted.insert(p, x);
            i += 1;
        }
        assert(whole.take(n as int) =~= whole);
        proof {
            crate::seqs::lemma_stable_sorted(whole, key);
        }
        self.queue = sorted;
    }

    /// The place of the first of the tasks with the lowest score.
    fn best_place(&self) -> (best: usize)
        requires
            self.queue@.len() > 0,
        ensures
            best == crate::seqs::first_min(self.queue@, take_key()),
            crate::seqs::is_first_min(self.queue@, take_key(), best as int),
    {
        let n = self.queue.len();
        let ghost key = take_key();
        let mut best: usize = 0;
        let mut low: i128 = self.queue[0].1.take_score_of();
        let mut i: usize = 1;
        while i < n
            invariant
                n == self.queue@.len(),
                key == take_key(),
                best < i <= n,
                low == key(self.queue@[best as int]),
                forall|j: int| 0 <= j < i ==> low <= key(#[trigger] self.queue@[j]),
                forall|j: int| 0 <= j < best ==> low < key(#[trigger] self.queue@[j]),
            decreases n - i,
        {
            let s: i128 = self.queue[i].1.take_score_of();
            if s < low {
                low = s;
                best = i;
            }
            i += 1;
        }
        proof {
            crate::seqs::lemma_first_min(self.queue@, key, best as int);
        }
        best
    }

    /// Takes the first of the tasks with the lowest score out of the queue.
    pub fn dequeue(&mut self) -> (r: Option<Waiting>)
        ensures
            r == taken(old(self).queue@),
            r is Some ==> crate::seqs::is_first_min(
                old(self).queue@,
                take_key(),
                crate::seqs::first_min(old(self).queue@, take_key()),
            ),
            final(self).queue@ == left(old(self).queue@),
            final(self).current == old(self).current,
            final(self).preempt_count == old(self).preempt_count,
    {
        if self.queue.len() == 0 {
            return None;
        }
        let best = self.best_place();
        Some(self.queue.remove(best))
    }

    /// Names the task that [`RunQueue::dequeue`] would take, and leaves the queue alone.
    pub fn pick_next(&self) -> (r: Option<u64>)
        ensures
            r == named(self.queue@),
            r is Some ==> crate::seqs::is_first_min(
                self.queue@,
                take_key(),
                crate::seqs::first_min(self.queue@, take_key()),
            ),
    {
        if self.queue.len() == 0 {
            return None;
        }
        let best = self.best_place();
        Some(self.queue[best].0)
    }

    /// Which of two policies is the more urgent: the one with the lower rank.
    pub fn cmp_priority(a: &SchedulePolicy, b: &SchedulePolicy) -> (o: Ordering)
        ensures
            o == (if a.rank_score() < b.rank_score() {
                Ordering::Less
            } else if a.rank_score() > b.rank_score() {
                Ordering::Greater
            } else {
                Ordering::Equal
            }),
    {
        let sa: i64 = a.rank_score_of();
        let sb: i64 = b.rank_score_of();
        if sa < sb {
            Ordering::Less
        } else if sa > sb {
            Ordering::Greater
        } else {
            Ordering::Equal
        }
    }

    /// Charges every waiting task the ticks of the clock and orders the queue by run time.
    pub fn rebalance(&mut self, now: u64)
        requires
            now * 1024 <= u64::MAX,
        ensures
            final(self).queue@ == levelled(aged(old(self).queue@, now), old(self).queue@.len() as int),
            crate::seqs::sorted_by(final(self).queue@, runtime_key()),
            final(self).queue@.to_multiset() == aged(old(self).queue@, now).to_multiset(),
            final(self).current == old(self).current,
            final(self).preempt_count == old(self).preempt_count,
    {
        let n = self.queue.len();
        let ghost q0 = self.queue@;
        let ghost q1 = aged(q0, now);
        let mut i: usize = 0;
        while i < n
            invariant
                n == q0.len(),
                n == self.queue@.len(),
                i <= n,
                now * 1024 <= u64::MAX,
                q1 == aged(q0, now),
                forall|k: int| 0 <= k < i ==> self.queue@[k] == q1[k],
                forall|k: int| i <= k < n ==> self.queue@[k] == q0[k],
                self.current == old(self).current,
                self.preempt_count == old(self).preempt_count,
            decreases n - i,
        {
            let (id, mut p) = self.queue[i];
            p.vruntime = charged(p.vruntime, now, p.weight());
            self.queue.set(i, (id, p));
            i += 1;
        }
        assert(self.queue@ =~= q1);
        i = 0;
        while i < n
            invariant
                n == q1.len(),
                n == self.queue@.len(),
                i <= n,
                self.queue@ == levelled(q1, i as int),
                self.current == old(self).current,
                self.preempt_count == old(self).preempt_count,
            decreases n - i,
        {
            let mut j: usize = i + 1;
            while j < n
                invariant
                    n == q1.len(),
                    n == self.queue@.len(),
                    i < j <= n,
                    self.queue@ == lowered(levelled(q1, i as int), i as int, j as int),
                    self.current == old(self).current,
                    self.preempt_count == old(self).preempt_count,
                decreases n - j,
            {
                if self.queue[i].1.vruntime > self.queue[j].1.vruntime {
                    let a = self.queue[i];
                    let b = self.queue[j];
                    self.queue.set(i, b);
                    self.queue.set(j, a);
                }
                j += 1;
            }
            i += 1;
        }
        proof {
            lemma_levelled(q1, n as int);
        }
    }

    /// Sets the running task.
    pub fn set_current(&mut self, id: u64)
        ensures
            *final(self) == (RunQueue { current: Some(id), ..*old(self) }),
    {
        self.current = Some(id);
    }

    /// Leaves no task running.
    pub fn clear_current(&mut self)
        ensures
            *final(self) == (RunQueue { current: None, ..*old(self) }),
    {
        self.current = None;
    }

    /// How many tasks wait.
    pub fn len(&self) -> (n: usize)
        ensures
            n == self.queue@.len(),
    {
        self.queue.len()
    }

    /// Takes every entry of a task out of the queue; tells whether there was one.
    pub fn remove(&mut self, task_id: u64) -> (found: bool)
        ensures
            final(self).queue@ == old(self).queue@.filter(not_task(task_id)),
            found == exists|i: int| 0 <= i < old(self).queue@.len() && (#[trigger] old(self).queue@[i]).0 == task_id,
            final(self).current == old(self).current,
            final(self).preempt_count == old(self).preempt_count,
    {
        let ghost p = not_task(task_id);
        let mut kept: Vec<Waiting> = Vec::new();
        let mut found = false;
        let mut i: usize = 0;
        proof {
            crate::seqs::lemma_filter_ends(self.queue@, p);
        }
        while i < self.queue.len()
            invariant
                *self == *old(self),
                i <= self.queue@.len(),
                p == not_task(task_id),
                kept@ == self.queue@.take(i as int).filter(p),
                found == exists|k: int| 0 <= k < i && (#[trigger] self.queue@[k]).0 == task_id,
            decreases self.queue@.len() - i,
        {
            proof {
                crate::seqs::lemma_filter_step(self.queue@, i as int, p);
            }
            let e = self.queue[i];
            if e.0 != task_id {
                kept.push(e);
            } else {
                assert(self.queue@[i as int].0 == task_id);
                found = true;
            }
            i += 1;
        }
        self.queue = kept;
        found
    }

    /// Charges a waiting task `delta` ticks.
    pub fn update_vruntime(&mut self, task_id: u64, delta: u64)
        requires
            delta * 1024 <= u64::MAX,
        ensures
            (forall|i: int| 0 <= i < old(self).queue@.len() ==> (#[trigger] old(self).queue@[i]).0 != task_id)
                ==> *final(self) == *old(self),
            forall|i: int| #[trigger]
                first_place(old(self).queue@, task_id, i) ==> final(self).queue@ == old(self).queue@.update(
                    i,
                    (task_id, ran(old(self).queue@[i].1, delta)),
                ),
            final(self).current == old(self).current,
            final(self).preempt_count == old(self).preempt_count,
    {
        let mut i: usize = 0;
        while i < self.queue.len()
            invariant
                *self == *old(self),
                i <= self.queue@.len(),
                delta * 1024 <= u64::MAX,
                forall|j: int| 0 <= j < i ==> (#[trigger] self.queue@[j]).0 != task_id,
            decreases self.queue@.len() - i,
        {
            let (id, mut p) = self.queue[i];
            if id == task_id {
                p.vruntime = charged(p.vruntime, delta, p.weight());
                self.queue.set(i, (id, p));
                return;
            }
            i += 1;
        }
    }

    /// Turns preemption off once more.
    pub fn preempt_disable(&mut self)
        ensures
            final(self).preempt_count == held_off(old(self).preempt_count),
            final(self).preempt_count == (old(self).preempt_count + 1) % 0x1_0000_0000_0000_0000,
            final(self).queue == old(self).queue,
            final(self).current == old(self).current,
    {
        self.preempt_count = self.preempt_count.wrapping_add(1);
    }

    /// Takes back one turning off.
    pub fn preempt_enable(&mut self)
        ensures
            final(self).preempt_count == let_in(old(self).preempt_count),
            final(self).preempt_count == (old(self).preempt_count - 1) % 0x1_0000_0000_0000_0000,
            final(self).queue == old(self).queue,
            final(self).current == old(self).current,
    {
        self.preempt_count = self.preempt_count.wrapping_sub(1);
    }

    /// Whether the running task may be preempted.
    pub fn preemptible(&self) -> (r: bool)
        ensures
            r == (self.preempt_count == 0),
    {
        self.preempt_count == 0
    }

    /// Makes a waiting task more urgent by `amount`, down to the priority -20.
    pub fn boost_priority(&mut self, task_id: u64, amount: i32)
        requires
            forall|i: int| #[trigger]
                first_place(old(self).queue@, task_id, i) ==> i32::MIN <= old(self).queue@[i].1.prio - amount <= i32::MAX,
        ensures
            (forall|i: int| 0 <= i < old(self).queue@.len() ==> (#[trigger] old(self).queue@[i]).0 != task_id)
                ==> *final(self) == *old(self),
            forall|i: int| #[trigger]
                first_place(old(self).queue@, task_id, i) ==> final(self).queue@ == old(self).queue@.update(
                    i,
                    (
                        task_id,
                        SchedulePolicy {
                            prio: (if old(self).queue@[i].1.prio - amount > -20 {
                                old(self).queue@[i].1.prio - amount
                            } else {
                                -20int
                            }) as i32,
                            ..old(self).queue@[i].1
                        },
                    ),
                ),
            final(self).current == old(self).current,
            final(self).preempt_count == old(self).preempt_count,
    {
        let mut i: usize = 0;
        while i < self.queue.len()
            invariant
                *self == *old(self),
                i <= self.queue@.len(),
                forall|i: int| #[trigger]
                    first_place(self.queue@, task_id, i) ==> i32::MIN <= self.queue@[i].1.prio - amount <= i32::MAX,
                forall|j: int| 0 <= j < i ==> (#[trigger] self.queue@[j]).0 != task_id,
            decreases self.queue@.len() - i,
        {
            let (id, mut p) = self.queue[i];
            if id == task_id {
                assert(first_place(self.queue@, task_id, i as int));
                let lower: i32 = p.prio - amount;
                p.prio = if lower > -20 {
                    lower
                } else {
                    -20
                };
                self.queue.set(i, (id, p));
                return;
            }
            i += 1;
        }
    }

    /// Puts the running task back at the end of the queue; tells whether there was one.
    pub fn yield_current(&mut self) -> (r: bool)
        ensures
            r == (old(self).current is Some),
            final(self).current is None,
            final(self).preempt_count == old(self).preempt_count,
            match old(self).current {
                Some(id) => final(self).queue@ == old(self).queue@.push(
                    (
                        id,
                        SchedulePolicy { policy: SCHED_NORMAL, prio: PRIO_DEFAULT, nice: 0, time_slice: 10, vruntime: 0 },
                    ),
                ),
                None => final(self).queue@ == old(self).queue@,
            },
            final(self).queue@ == yielded(old(self).queue@, old(self).current),
    {
        match self.current {
            Some(id) => {
                self.current = None;
                self.queue.push((id, SchedulePolicy::new()));
                true
            },
            None => false,
        }
    }
}

proof fn lemma_exchanged(s: Seq<Waiting>, i: int, j: int)
    requires
        0 <= i < j < s.len(),
    ensures
        exchanged(s, i, j).to_multiset() == s.to_multiset(),
        exchanged(s, i, j).len() == s.len(),
{
    broadcast use vstd::seq_lib::group_to_multiset_ensures;

    let t = s.update(i, s[j]);
    assert(t.update(j, s[i]).to_multiset() =~= s.to_multiset());
}

/// Lowering entry `i` leaves those before it alone and makes it the least of the rest.
proof fn lemma_lowered(s: Seq<Waiting>, i: int, j: int)
    requires
        0 <= i < j <= s.len(),
    ensures
        lowered(s, i, j).len() == s.len(),
        lowered(s, i, j).to_multiset() == s.to_multiset(),
        forall|k: int| 0 <= k < i || j <= k < s.len() ==> (#[trigger] lowered(s, i, j)[k]) == s[k],
        forall|k: int| i < k < j ==> lowered(s, i, j)[i].1.vruntime <= (#[trigger] lowered(s, i, j)[k]).1.vruntime,
        forall|k: int|
            i <= k < j ==> exists|m: int| i <= m < j && #[trigger] s[m] == (#[trigger] lowered(s, i, j)[k]),
    decreases j - i,
{
    if j > i + 1 {
        lemma_lowered(s, i, j - 1);
        let t = lowered(s, i, j - 1);
        assert(t[j - 1] == s[j - 1]);
        if t[i].1.vruntime > t[j - 1].1.vruntime {
            lemma_exchanged(t, i, j - 1);
        }
        let r = lowered(s, i, j);
        assert forall|k: int| i <= k < j implies exists|m: int| i <= m < j && #[trigger] s[m] == (#[trigger] r[k]) by {
            if r[k] == t[j - 1] {
                assert(s[j - 1] == r[k]);
            } else {
                let k2 = if k == j - 1 { i } else { k };
                assert(r[k] == t[k2]);
            }
        }
    } else {
        assert(s[i] == lowered(s, i, j)[i]);
    }
}

proof fn lemma_levelled(s: Seq<Waiting>, n: int)
    requires
        0 <= n <= s.len(),
    ensures
        levelled(s, n).len() == s.len(),
        levelled(s, n).to_multiset() == s.to_multiset(),
        forall|a: int, b: int|
            0 <= a < n && a < b < s.len() ==> (#[trigger] levelled(s, n)[a]).1.vruntime <= (#[trigger] levelled(s, n)[b]).1.vruntime,
    decreases n,
{
    if n > 0 {
        lemma_levelled(s, n - 1);
        let t = levelled(s, n - 1);
        let r = levelled(s, n);
        lemma_lowered(t, n - 1, s.len() as int);
        assert forall|a: int, b: int| 0 <= a < n && a < b < s.len() implies (#[trigger] r[a]).1.vruntime <= (
        #[trigger] r[b]).1.vruntime by {
            if a < n - 1 {
                assert(r[a] == t[a]);
                if b >= n - 1 {
                    let m = choose|m: int| n - 1 <= m < s.len() && #[trigger] t[m] == r[b];
                    assert(t[a].1.vruntime <= t[m].1.vruntime);
                }
            }
        }
    }
}

/// What is taken out is one of the tasks that were put in, and no other leaves.
pub proof fn law_dequeue_takes_one(q: Seq<Waiting>, i: int)
    requires
        crate::seqs::is_first_min(q, take_key(), i),
    ensures
        q.remove(i).to_multiset().insert(q[i]) == q.to_multiset(),
        forall|j: int| 0 <= j < q.remove(i).len() ==> q[i].1.take_score() <= (#[trigger] q.remove(i)[j]).1.take_score(),
{
    broadcast use vstd::seq_lib::group_to_multiset_ensures;

    let key = take_key();
    assert(q.remove(i).to_multiset().insert(q[i]) =~= q.to_multiset());
    assert forall|j: int| 0 <= j < q.remove(i).len() implies q[i].1.take_score() <= (
    #[trigger] q.remove(i)[j]).1.take_score() by {
        let k = if j < i { j } else { j + 1 };
        assert(key(q[i]) <= key(q[k]));
    }
}

/// What is named is what is taken next: there is a name exactly if there is a task to take, and
/// it is the id of that task.
pub proof fn law_named_is_taken(q: Seq<Waiting>)
    ensures
        named(q) is Some <==> taken(q) is Some,
        taken(q) matches Some(e) ==> named(q) == Some(e.0),
{
}

/// Of two tasks that differ in one thing only, the one with the more urgent priority, with less run
/// time, or with the lower nice value is taken before the other.
pub proof fn law_more_urgent_first(q: Seq<Waiting>, j: int)
    requires
        0 <= j < q.len(),
    ensures
        taken(q) matches Some(e) ==> {
            let a = e.1;
            let b = q[j].1;
            &&& b.vruntime == a.vruntime && b.nice == a.nice ==> a.prio <= b.prio
            &&& b.prio == a.prio && b.nice == a.nice ==> crate::utils::signed(a.vruntime) <= crate::utils::signed(b.vruntime)
            &&& b.prio == a.prio && b.vruntime == a.vruntime ==> a.weight_of() >= b.weight_of()
        },
        taken(q) is Some,
{
    let i = crate::seqs::first_min(q, take_key());
    lemma_some_first_min(q, q.len() as int);
    assert(crate::seqs::is_first_min(q, take_key(), i));
    assert(take_key()(q[i]) <= take_key()(q[j]));
}

/// There is a first one of those with the lowest score.
proof fn lemma_some_first_min(q: Seq<Waiting>, n: int)
    requires
        0 < n <= q.len(),
    ensures
        exists|i: int| #[trigger] crate::seqs::is_first_min(q.take(n), take_key(), i),
        n == q.len() ==> crate::seqs::is_first_min(q, take_key(), crate::seqs::first_min(q, take_key())),
    decreases n,
{
    let key = take_key();
    let s = q.take(n);
    if n > 1 {
        lemma_some_first_min(q, n - 1);
        let t = q.take(n - 1);
        let i = choose|i: int| #[trigger] crate::seqs::is_first_min(t, key, i);
        let w = if key(s[n - 1]) < key(s[i]) {
            n - 1
        } else {
            i
        };
        assert forall|j: int| 0 <= j < s.len() implies key(s[w]) <= key(#[trigger] s[j]) by {
            if j < n - 1 {
                assert(key(t[i]) <= key(t[j]));
            }
        }
        assert forall|j: int| 0 <= j < w implies key(s[w]) < key(#[trigger] s[j]) by {
            if w == i {
                assert(key(t[i]) < key(t[j]));
            } else {
                assert(key(t[i]) <= key(t[j]));
            }
        }
        assert(crate::seqs::is_first_min(s, key, w));
    } else {
        assert(crate::seqs::is_first_min(s, key, 0));
    }
    if n == q.len() {
        assert(q.take(n) =~= q);
    }
}

/// The lower the nice value, the larger the share of the CPU: the weight does not fall, and the same
/// ticks count for no more run time. At the nice value 0 a tick counts for one.
pub proof fn law_nice_shares(p: SchedulePolicy, q: SchedulePolicy, ticks: u64)
    requires
        p.nice <= q.nice,
        p.vruntime == 0,
        q.vruntime == 0,
        ticks * 1024 <= u64::MAX,
    ensures
        p.weight_of() >= q.weight_of() > 0,
        ran(p, ticks).vruntime <= ran(q, ticks).vruntime,
        p.nice == 0 ==> ran(p, ticks).vruntime == ticks,
{
    let n = ticks * 1024;
    let a = p.weight_of() as int;
    let b = q.weight_of() as int;
    vstd::arithmetic::div_mod::lemma_div_is_ordered_by_denominator(n, b, a);
    vstd::arithmetic::div_mod::lemma_div_pos_is_pos(n, a);
    vstd::arithmetic::div_mod::lemma_div_pos_is_pos(n, b);
    vstd::arithmetic::div_mod::lemma_div_nonincreasing(n, a);
    vstd::arithmetic::div_mod::lemma_div_nonincreasing(n, b);
}

/// A new task goes to a CPU that has the fewest tasks of those with the same priority that are
/// equally blocked; of CPUs that differ in nothing else, not to one that is blocked, and to one with
/// the highest priority.
pub proof fn law_least_loaded_wins(tasks: Seq<u64>, prios: Seq<i32>, blocked: Seq<bool>, cpu: int, c: int)
    requires
        best_cpu(tasks, prios, blocked, cpu),
        0 <= c < tasks.len(),
        prios.len() == tasks.len(),
        blocked.len() == tasks.len(),
    ensures
        prios[c] == prios[cpu] && blocked[c] == blocked[cpu] ==> tasks[cpu] <= tasks[c],
        prios[c] == prios[cpu] && tasks[c] == tasks[cpu] && blocked[cpu] ==> blocked[c],
        tasks[c] == tasks[cpu] && blocked[c] == blocked[cpu] ==> prios[c] - prios[cpu] <= 2,
{
    assert(cpu_score(tasks, prios, blocked, c) <= cpu_score(tasks, prios, blocked, cpu));
}

/// Of two policies that differ in the priority only, the one with the smaller number ranks before
/// the other, and so does the one with less run time.
pub proof fn law_rank_follows_priority(p: SchedulePolicy, q: SchedulePolicy)
    requires
        p.nice == q.nice,
        p.vruntime <= i64::MAX,
        q.vruntime <= i64::MAX,
    ensures
        p.vruntime == q.vruntime && p.prio < q.prio ==> p.rank_score() < q.rank_score() && p.queue_score() < q.queue_score(),
        p.prio == q.prio && p.vruntime <= q.vruntime ==> p.rank_score() <= q.rank_score() && p.queue_score()
            <= q.queue_score(),
{
    if p.vruntime <= q.vruntime {
        vstd::arithmetic::div_mod::lemma_div_is_ordered(p.vruntime as int, q.vruntime as int, p.weight_of() as int);
    }
}

/// Turning preemption off and taking that back leaves the count as it was; what was turned off once
/// is off.
pub proof fn law_preempt_nests(n: u64)
    ensures
        ((n + 1) % 0x1_0000_0000_0000_0000 - 1) % 0x1_0000_0000_0000_0000 == n,
        let_in(held_off(n)) == n,
        held_off(0) != 0,
{
}

/// A task that was removed waits no longer, and every other task still does.
pub proof fn law_removed_waits_no_more(q: Seq<Waiting>, id: u64, e: Waiting)
    ensures
        q.filter(not_task(id)).contains(e) <==> q.contains(e) && e.0 != id,
{
    crate::seqs::lemma_filter_contains(q, not_task(id));
}

/// A queue in its order has the more urgent of two tasks, and the one with less run time, first, where
/// they do not differ otherwise.
pub proof fn law_queue_order(q: Seq<Waiting>, i: int, j: int)
    requires
        crate::seqs::sorted_by(q, queue_key()),
        0 <= i < j < q.len(),
    ensures
        ({
            let a = q[i].1;
            let b = q[j].1;
            &&& a.vruntime == b.vruntime && a.nice == b.nice ==> a.prio <= b.prio
            &&& a.prio == b.prio && a.nice == b.nice ==> crate::utils::signed(a.vruntime) <= crate::utils::signed(b.vruntime)
        }),
{
    assert(queue_key()(q[i]) <= queue_key()(q[j]));
}

/// Levelling a queue takes no task away and changes nothing of a task but its run time, and the
/// task with the least run time then comes first.
pub proof fn law_levelling_keeps_tasks(q: Seq<Waiting>, ticks: u64, sorted: Seq<Waiting>, i: int)
    requires
        0 <= i < q.len(),
        sorted.to_multiset() == aged(q, ticks).to_multiset(),
        crate::seqs::sorted_by(sorted, runtime_key()),
    ensures
        sorted.len() == q.len(),
        sorted[0].1.vruntime <= sorted[i].1.vruntime,
        exists|j: int|
            0 <= j < sorted.len() && (#[trigger] sorted[j]).0 == q[i].0 && sorted[j].1 == (SchedulePolicy {
                vruntime: sorted[j].1.vruntime,
                ..q[i].1
            }),
{
    let a = aged(q, ticks);
    a.to_multiset_ensures();
    sorted.to_multiset_ensures();
    assert(a.contains(a[i]));
    assert(sorted.to_multiset().count(a[i]) > 0);
    assert(sorted.contains(a[i]));
    let j = choose|j: int| 0 <= j < sorted.len() && sorted[j] == a[i];
    assert(sorted[j].0 == q[i].0);
    if i > 0 {
        assert(runtime_key()(sorted[0]) <= runtime_key()(sorted[i]));
    }
}

/// The queue when the running task has gone to its end.
pub open spec fn yielded(q: Seq<Waiting>, current: Option<u64>) -> Seq<Waiting> {
    match current {
        Some(id) => q.push(
            (id, SchedulePolicy { policy: SCHED_NORMAL, prio: PRIO_DEFAULT, nice: 0, time_slice: 10, vruntime: 0 }),
        ),
        None => q,
    }
}

/// A task that yields waits behind all that waited before, and none of those is lost.
pub proof fn law_yielding_waits_last(q: Seq<Waiting>, id: u64)
    ensures
        yielded(q, Some(id)).last().0 == id,
        yielded(q, Some(id)).drop_last() == q,
        yielded(q, None) == q,
{
    assert(yielded(q, Some(id)).drop_last() =~= q);
}

} // verus!
