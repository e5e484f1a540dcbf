//! Waiting on user-space words.
//!
//! A thread that may sleep is queued under the address of its word. Waking is a decision on the
//! queue; the threads to be woken are returned by their numbers.

use vstd::prelude::*;

verus! {

/// One thread waiting on a word.
#[derive(Clone, Copy, PartialEq, Eq, Structural)]
pub struct FutexWaiter {
    /// Address of the word.
    pub addr: u64,
    /// The thread.
    pub thread: u64,
    /// Names this wait, so that a real wake-up can be told from a spurious one.
    pub ticket: u64,
}

/// Number of waiters at `addr`.
pub open spec fn waiters_at(s: Seq<FutexWaiter>, addr: u64) -> nat
    decreases s.len(),
{
    if s.len() == 0 {
        0
    } else {
        waiters_at(s.drop_last(), addr) + (if s.last().addr == addr { 1nat } else { 0nat })
    }
}

/// The first `n` waiters at `addr`.
pub open spec fn first_at(s: Seq<FutexWaiter>, addr: u64, n: nat) -> Seq<FutexWaiter>
    decreases s.len(),
{
    if s.len() == 0 {
        s
    } else {
        let w = first_at(s.drop_last(), addr, n);
        if s.last().addr == addr && waiters_at(s.drop_last(), addr) < n {
            w.push(s.last())
        } else {
            w
        }
    }
}

/// The queue once the first `wake_n` waiters at `src` are gone and the next `move_n` of them wait
/// at `dst`.
pub open spec fn requeued(s: Seq<FutexWaiter>, src: u64, dst: u64, wake_n: nat, move_n: nat) -> Seq<FutexWaiter>
    decreases s.len(),
{
    if s.len() == 0 {
        s
    } else {
        let k = requeued(s.drop_last(), src, dst, wake_n, move_n);
        let rank = waiters_at(s.drop_last(), src);
        if s.last().addr != src {
            k.push(s.last())
        } else if rank < wake_n {
            k
        } else if rank < wake_n + move_n {
            k.push(FutexWaiter { addr: dst, ..s.last() })
        } else {
            k.push(s.last())
        }
    }
}

/// The threads of some waiters.
pub open spec fn threads_of(s: Seq<FutexWaiter>) -> Seq<u64> {
    s.map_values(|w: FutexWaiter| w.thread)
}

/// The tickets of some waiters.
pub open spec fn tickets_of(s: Seq<FutexWaiter>) -> Seq<u64> {
    s.map_values(|w: FutexWaiter| w.ticket)
}

proof fn lemma_first_at_len(s: Seq<FutexWaiter>, addr: u64, n: nat)
    ensures
        first_at(s, addr, n).len() == (if n < waiters_at(s, addr) { n } else { waiters_at(s, addr) }),
        waiters_at(s, addr) <= s.len(),
    decreases s.len(),
{
    if s.len() > 0 {
        lemma_first_at_len(s.drop_last(), addr, n);
    }
}

proof fn lemma_requeued_len(s: Seq<FutexWaiter>, src: u64, dst: u64, wake_n: nat, move_n: nat)
    ensures
        requeued(s, src, dst, wake_n, move_n).len() + first_at(s, src, wake_n).len() == s.len(),
    decreases s.len(),
{
    if s.len() > 0 {
        lemma_requeued_len(s.drop_last(), src, dst, wake_n, move_n);
    }
}

/// Takes the first `wake_n` waiters at `src` out of `q` and moves the next `move_n` to `dst`.
fn requeue_in(q: &mut Vec<FutexWaiter>, src: u64, dst: u64, wake_n: usize, move_n: usize) -> (woken: Vec<FutexWaiter>)
    ensures
        woken@ == first_at(old(q)@, src, wake_n as nat),
        final(q)@ == requeued(old(q)@, src, dst, wake_n as nat, move_n as nat),
{
    let ghost all = q@;
    let mut woken: Vec<FutexWaiter> = Vec::new();
    let mut kept: Vec<FutexWaiter> = Vec::new();
    let mut moved: usize = 0;
    let mut i: usize = 0;
    while i < q.len()
        invariant
            q@ == all,
            i <= all.len(),
            woken@ == first_at(all.take(i as int), src, wake_n as nat),
            kept@ == requeued(all.take(i as int), src, dst, wake_n as nat, move_n as nat),
            woken@.len() == (if wake_n < waiters_at(all.take(i as int), src) {
                wake_n as nat
            } else {
                waiters_at(all.take(i as int), src)
            }),
            moved <= i,
            moved == ({
                let seen = waiters_at(all.take(i as int), src);
                if seen <= wake_n {
                    0
                } else if seen - wake_n < move_n {
                    seen - wake_n
                } else {
                    move_n as int
                }
            }),
        decreases all.len() - i,
    {
        let w = q[i];
        proof {
            assert(all.take(i + 1).drop_last() =~= all.take(i as int));
            assert(all.take(i + 1).last() == w);
            lemma_first_at_len(all.take(i as int), src, wake_n as nat);
        }
        if w.addr == src {
            if woken.len() < wake_n {
                woken.push(w);
            } else if moved < move_n {
                kept.push(FutexWaiter { addr: dst, thread: w.thread, ticket: w.ticket });
                moved += 1;
            } else {
                kept.push(w);
            }
        } else {
            kept.push(w);
        }
        i += 1;
    }
    assert(all.take(i as int) =~= all);
    *q = kept;
    woken
}

/// The threads of `ws`.
fn threads(ws: &Vec<FutexWaiter>) -> (r: Vec<u64>)
    ensures
        r@ == threads_of(ws@),
{
    let mut r: Vec<u64> = Vec::new();
    let mut i: usize = 0;
    while i < ws.len()
        invariant
            i <= ws@.len(),
            r@ == threads_of(ws@.take(i as int)),
        decreases ws@.len() - i,
    {
        r.push(ws[i].thread);
        i += 1;
        assert(r@ =~= threads_of(ws@.take(i as int)));
    }
    assert(ws@.take(i as int) =~= ws@);
    r
}

/// Waiters that tell real wake-ups from spurious ones.
pub struct FutexBucket {
    /// Waiting threads, the longest waiting first.
    pub waiters: Vec<FutexWaiter>,
    /// Tickets that were woken and have not been asked for yet.
    pub granted: Vec<u64>,
    /// The next ticket.
    pub next_ticket: u64,
}

/// A bucket, as values.
#[verifier::ext_equal]
pub struct FutexState {
    /// Waiting threads.
    pub waiters: Seq<FutexWaiter>,
    /// Tickets that were woken.
    pub granted: Seq<u64>,
    /// The next ticket.
    pub next_ticket: u64,
}

impl FutexState {
    /// After thread `thread` was queued at `addr`, under the next ticket.
    pub open spec fn queued(self, addr: u64, thread: u64) -> FutexState {
        FutexState {
            waiters: self.waiters.push(FutexWaiter { addr, thread, ticket: self.next_ticket }),
            next_ticket: (self.next_ticket + 1) as u64,
            ..self
        }
    }

    /// The threads that are woken when up to `n` at `addr` are, and the bucket without them.
    pub open spec fn woken(self, addr: u64, n: nat) -> (Seq<u64>, FutexState) {
        let ws = first_at(self.waiters, addr, n);
        (
            threads_of(ws),
            FutexState {
                waiters: requeued(self.waiters, addr, addr, n, 0),
                granted: self.granted + tickets_of(ws),
                ..self
            },
        )
    }

    /// The sleep of `ticket` ended with a wake-up.
    pub open spec fn was_woken(self, ticket: u64) -> bool {
        self.granted.contains(ticket)
    }
}

impl FutexBucket {
    /// The bucket as values.
    pub open spec fn view(&self) -> FutexState {
        FutexState { waiters: self.waiters@, granted: self.granted@, next_ticket: self.next_ticket }
    }

    /// An empty bucket.
    pub fn new() -> (b: Self)
        ensures
            b@ == (FutexState { waiters: Seq::empty(), granted: Seq::empty(), next_ticket: 0 }),
            b.waiters@ == Seq::<FutexWaiter>::empty(),
            b.granted@ == Seq::<u64>::empty(),
            b.next_ticket == 0,
    {
        FutexBucket { waiters: Vec::new(), granted: Vec::new(), next_ticket: 0 }
    }

    /// Thread `thread` wants to sleep while the word at `addr` is `expected`; it now is `val`.
    /// The ticket is to be handed to [`FutexBucket::wait_done`] after the sleep.
    pub fn wait(&mut self, addr: u64, expected: u32, val: u32, thread: u64) -> (r: Result<u64, &'static str>)
        requires
            old(self).next_ticket < u64::MAX,
        ensures
            val != expected ==> r == Err::<u64, &'static str>("changed") && *final(self) == *old(self),
            val == expected ==> {
                &&& r == Ok::<u64, &'static str>(old(self).next_ticket)
                &&& final(self).waiters@ == old(self).waiters@.push(
                    FutexWaiter { addr, thread, ticket: old(self).next_ticket },
                )
                &&& final(self).granted == old(self).granted
                &&& final(self).next_ticket == old(self).next_ticket + 1
                &&& final(self)@ == old(self)@.queued(addr, thread)
            },
    {
        if val != expected {
            return Err("changed");
        }
        let ticket: u64 = self.next_ticket;
        self.next_ticket = ticket + 1;
        self.waiters.push(FutexWaiter { addr, thread, ticket });
        Ok(ticket)
    }

    /// The sleep of `ticket` is over: a real wake-up, or else the time is up or the wake-up was
    /// spurious.
    pub fn wait_done(&mut self, ticket: u64) -> (r: Result<(), &'static str>)
        ensures
            r is Ok <==> old(self)@.was_woken(ticket),
            r == (if old(self).granted@.contains(ticket) { Ok(()) } else { Err("timeout") }),
            final(self).granted@ == (if old(self).granted@.contains(ticket) {
                old(self).granted@.remove(old(self).granted@.index_of_first(ticket)->0)
            } else {
                old(self).granted@
            }),
            final(self).waiters == old(self).waiters,
            final(self).next_ticket == old(self).next_ticket,
    {
        let mut i: usize = 0;
        while i < self.granted.len()
            invariant
                i <= self.granted@.len(),
                *self == *old(self),
                forall|j: int| 0 <= j < i ==> self.granted@[j] != ticket,
            decreases self.granted@.len() - i,
        {
            if self.granted[i] == ticket {
                proof {
                    self.granted@.index_of_first_ensures(ticket);
                }
                let _t: u64 = self.granted.remove(i);
                return Ok(());
            }
            i += 1;
        }
        Err("timeout")
    }

    /// Wakes the first `count` waiters at `addr`. Returns the threads to be woken.
    pub fn wake(&mut self, addr: u64, count: usize) -> (woken: Vec<u64>)
        ensures
            (woken@, final(self)@) == old(self)@.woken(addr, count as nat),
            ({
                let ws = first_at(old(self).waiters@, addr, count as nat);
                &&& woken@ == threads_of(ws)
                &&& final(self).granted@ == old(self).granted@ + tickets_of(ws)
            }),
            final(self).waiters@ == requeued(old(self).waiters@, addr, addr, count as nat, 0),
            woken@.len() == (if count < waiters_at(old(self).waiters@, addr) {
                count as nat
            } else {
                waiters_at(old(self).waiters@, addr)
            }),
            final(self).next_ticket == old(self).next_ticket,
    {
        self.requeue(addr, addr, count, 0)
    }

    /// Wakes the first `wake_n` waiters at `src` and lets the next `move_n` of them wait at `dst`.
    /// Returns the threads to be woken.
    pub fn requeue(&mut self, src: u64, dst: u64, wake_n: usize, move_n: usize) -> (woken: Vec<u64>)
        ensures
            ({
                let ws = first_at(old(self).waiters@, src, wake_n as nat);
                &&& woken@ == threads_of(ws)
                &&& final(self).granted@ == old(self).granted@ + tickets_of(ws)
            }),
            final(self).waiters@ == requeued(old(self).waiters@, src, dst, wake_n as nat, move_n as nat),
            woken@.len() == (if wake_n < waiters_at(old(self).waiters@, src) {
                wake_n as nat
            } else {
                waiters_at(old(self).waiters@, src)
            }),
            final(self).next_ticket == old(self).next_ticket,
    {
        proof {
            lemma_first_at_len(self.waiters@, src, wake_n as nat);
        }
        let ws = requeue_in(&mut self.waiters, src, dst, wake_n, move_n);
        let mut i: usize = 0;
        while i < ws.len()
            invariant
                i <= ws@.len(),
                self.granted@ == old(self).granted@ + tickets_of(ws@.take(i as int)),
                self.waiters@ == requeued(old(self).waiters@, src, dst, wake_n as nat, move_n as nat),
                self.next_ticket == old(self).next_ticket,
            decreases ws@.len() - i,
        {
            self.granted.push(ws[i].ticket);
            i += 1;
            assert(tickets_of(ws@.take(i as int)) =~= tickets_of(ws@.take(i - 1)).push(ws@[i - 1].ticket));
        }
        assert(ws@.take(i as int) =~= ws@);
        threads(&ws)
    }

    /// Number of waiters at `addr`.
    pub fn pending_at(&self, addr: u64) -> (n: usize)
        ensures
            n == waiters_at(self.waiters@, addr),
    {
        let mut n: usize = 0;
        let mut i: usize = 0;
        while i < self.waiters.len()
            invariant
                i <= self.waiters@.len(),
                n <= i,
                n == waiters_at(self.waiters@.take(i as int), addr),
            decreases self.waiters@.len() - i,
        {
            if self.waiters[i].addr == addr {
                n += 1;
            }
            i += 1;
            assert(self.waiters@.take(i as int).drop_last() =~= self.waiters@.take(i - 1));
        }
        assert(self.waiters@.take(i as int) =~= self.waiters@);
        n
    }
}

/// Waiters without time limits, where every wake-up counts as real.
pub struct FutexTable {
    /// Waiting threads, the longest waiting first; their tickets are all zero.
    pub table: Vec<FutexWaiter>,
}

impl FutexTable {
    /// An empty table.
    pub fn new() -> (t: Self)
        ensures
            t.table@ == Seq::<FutexWaiter>::empty(),
    {
        FutexTable { table: Vec::new() }
    }

    /// Thread `thread` wants to sleep while the word at `addr` is `expected`; it now is `val`.
    /// `true` tells the thread that it is queued and is to sleep.
    pub fn ftx_wait(&mut self, addr: u64, expected: u32, val: u32, thread: u64) -> (b: bool)
        ensures
            b == (val == expected),
            final(self).table@ == (if b {
                old(self).table@.push(FutexWaiter { addr, thread, ticket: 0 })
            } else {
                old(self).table@
            }),
    {
        if val != expected {
            return false;
        }
        self.table.push(FutexWaiter { addr, thread, ticket: 0 });
        true
    }

    /// Wakes the first `count` waiters at `addr`. Returns the threads to be woken.
    pub fn ftx_wake(&mut self, addr: u64, count: usize) -> (woken: Vec<u64>)
        ensures
            woken@ == threads_of(first_at(old(self).table@, addr, count as nat)),
            final(self).table@ == requeued(old(self).table@, addr, addr, count as nat, 0),
            woken@.len() == (if count < waiters_at(old(self).table@, addr) {
                count as nat
            } else {
                waiters_at(old(self).table@, addr)
            }),
    {
        self.ftx_requeue(addr, addr, count, 0)
    }

    /// Wakes the first `wake_n` waiters at `src_addr` and lets the next `move_n` of them wait at
    /// `dst_addr`. Returns the threads to be woken.
    pub fn ftx_requeue(&mut self, src_addr: u64, dst_addr: u64, wake_n: usize, move_n: usize) -> (woken: Vec<u64>)
        ensures
            woken@ == threads_of(first_at(old(self).table@, src_addr, wake_n as nat)),
            final(self).table@ == requeued(old(self).table@, src_addr, dst_addr, wake_n as nat, move_n as nat),
            woken@.len() == (if wake_n < waiters_at(old(self).table@, src_addr) {
                wake_n as nat
            } else {
                waiters_at(old(self).table@, src_addr)
            }),
    {
        proof {
            lemma_first_at_len(self.table@, src_addr, wake_n as nat);
        }
        let ws = requeue_in(&mut self.table, src_addr, dst_addr, wake_n, move_n);
        threads(&ws)
    }
}

/// Requeueing neither loses nor invents a waiter: each is woken or still queued.
pub proof fn law_requeue_conserves(s: Seq<FutexWaiter>, src: u64, dst: u64, wake_n: nat, move_n: nat)
    ensures
        requeued(s, src, dst, wake_n, move_n).len() + first_at(s, src, wake_n).len() == s.len(),
        first_at(s, src, wake_n).len() <= wake_n,
{
    lemma_requeued_len(s, src, dst, wake_n, move_n);
    lemma_first_at_len(s, src, wake_n);
}

/// A waiter at another address is neither woken nor moved.
pub proof fn law_others_undisturbed(s: Seq<FutexWaiter>, src: u64, dst: u64, wake_n: nat, move_n: nat, w: FutexWaiter)
    requires
        s.contains(w),
        w.addr != src,
    ensures
        requeued(s, src, dst, wake_n, move_n).contains(w),
        !first_at(s, src, wake_n).contains(w),
    decreases s.len(),
{
    let k = requeued(s.drop_last(), src, dst, wake_n, move_n);
    let f = first_at(s.drop_last(), src, wake_n);
    let r = requeued(s, src, dst, wake_n, move_n);
    if s.drop_last().contains(w) {
        law_others_undisturbed(s.drop_last(), src, dst, wake_n, move_n, w);
        let i = choose|i: int| 0 <= i < k.len() && k[i] == w;
        assert(r[i] == w);
    } else {
        let i = choose|i: int| 0 <= i < s.len() && s[i] == w;
        if i < s.len() - 1 {
            assert(s.drop_last()[i] == w);
        }
        assert(s.last() == w);
        assert(r[k.len() as int] == w);
        lemma_first_at_subset(s.drop_last(), src, wake_n);
    }
    let fs = first_at(s, src, wake_n);
    if fs.contains(w) {
        lemma_first_at_subset(s, src, wake_n);
        let i = choose|i: int| 0 <= i < fs.len() && fs[i] == w;
        assert(fs[i].addr == src);
    }
}

proof fn lemma_first_at_subset(s: Seq<FutexWaiter>, addr: u64, n: nat)
    ensures
        forall|i: int| 0 <= i < first_at(s, addr, n).len() ==> (#[trigger] first_at(s, addr, n)[i]).addr == addr,
    decreases s.len(),
{
    if s.len() > 0 {
        lemma_first_at_subset(s.drop_last(), addr, n);
        let w = first_at(s.drop_last(), addr, n);
        assert forall|i: int| 0 <= i < first_at(s, addr, n).len() implies (#[trigger] first_at(s, addr, n)[i]).addr == addr by {
            if i < w.len() {
                assert(w[i].addr == addr);
            }
        }
    }
}

/// Waiters are woken in the order in which they came: of those at an address the first `wake_n` are
/// woken, the next `move_n` then wait at the other address, and the rest stay where they are.
pub proof fn law_longest_waiting_first(s: Seq<FutexWaiter>, src: u64, dst: u64, wake_n: nat, move_n: nat, i: int)
    requires
        0 <= i < s.len(),
        s[i].addr == src,
    ensures
        ({
            let rank = waiters_at(s.take(i), src);
            let woken = first_at(s, src, wake_n);
            let after = requeued(s, src, dst, wake_n, move_n);
            &&& rank < wake_n ==> rank < woken.len() && woken[rank as int] == s[i]
            &&& wake_n <= rank < wake_n + move_n ==> after.contains(FutexWaiter { addr: dst, ..s[i] })
            &&& rank >= wake_n + move_n ==> after.contains(s[i])
        }),
    decreases s.len(),
{
    let t = s.drop_last();
    lemma_first_len(t, src, wake_n);
    if i < s.len() - 1 {
        law_longest_waiting_first(t, src, dst, wake_n, move_n, i);
        assert(t.take(i) =~= s.take(i));
        let before = requeued(t, src, dst, wake_n, move_n);
        let after = requeued(s, src, dst, wake_n, move_n);
        assert forall|w: FutexWaiter| before.contains(w) implies after.contains(w) by {
            let j = choose|j: int| 0 <= j < before.len() && before[j] == w;
            assert(after[j] == w);
        }
    } else {
        assert(s.take(i) =~= t);
        let after = requeued(s, src, dst, wake_n, move_n);
        if after.len() > 0 {
            assert(after.contains(after.last()));
        }
    }
}

proof fn lemma_first_len(s: Seq<FutexWaiter>, addr: u64, n: nat)
    ensures
        first_at(s, addr, n).len() == (if waiters_at(s, addr) < n {
            waiters_at(s, addr)
        } else {
            n
        }),
    decreases s.len(),
{
    if s.len() > 0 {
        lemma_first_len(s.drop_last(), addr, n);
    }
}

/// A thread that sleeps on a word is woken by a wake-up at its address that reaches it, and then
/// knows that it was; one that no wake-up reached knows that its time was up.
pub proof fn law_woken_thread_knows(s: FutexState, addr: u64, thread: u64, n: nat, other: u64)
    requires
        !s.granted.contains(s.next_ticket),
        forall|i: int| 0 <= i < s.waiters.len() ==> (#[trigger] s.waiters[i]).ticket != s.next_ticket,
        other != addr,
        s.next_ticket < u64::MAX,
    ensures
        ({
            let q = s.queued(addr, thread);
            &&& waiters_at(s.waiters, addr) < n ==> q.woken(addr, n).1.was_woken(s.next_ticket) && q.woken(addr, n).0.contains(
                thread,
            )
            &&& waiters_at(s.waiters, addr) >= n ==> !q.woken(addr, n).1.was_woken(s.next_ticket)
            &&& !q.woken(other, n).1.was_woken(s.next_ticket)
            &&& !q.was_woken(s.next_ticket)
            &&& q.next_ticket > s.next_ticket
        }),
{
    let q = s.queued(addr, thread);
    let w = q.waiters.last();
    let m = s.waiters.len() as int;
    assert(q.waiters.drop_last() =~= s.waiters);
    let ws = first_at(q.waiters, addr, n);
    let before = first_at(s.waiters, addr, n);
    let others = first_at(q.waiters, other, n);
    lemma_first_within(s.waiters, addr, n);
    lemma_first_within(s.waiters, other, n);
    assert(others == first_at(s.waiters, other, n));
    if waiters_at(s.waiters, addr) < n {
        assert(ws == before.push(w));
        let k = before.len() as int;
        let g = q.woken(addr, n).1.granted;
        assert(tickets_of(ws)[k] == s.next_ticket);
        assert(g[s.granted.len() + k] == s.next_ticket);
        assert(threads_of(ws)[k] == thread);
    } else {
        lemma_not_granted(s.granted, before, s.next_ticket);
    }
    lemma_not_granted(s.granted, others, s.next_ticket);
}

proof fn lemma_first_within(s: Seq<FutexWaiter>, addr: u64, n: nat)
    ensures
        forall|i: int| 0 <= i < first_at(s, addr, n).len() ==> s.contains(#[trigger] first_at(s, addr, n)[i]),
    decreases s.len(),
{
    if s.len() > 0 {
        let t = s.drop_last();
        lemma_first_within(t, addr, n);
        let f = first_at(s, addr, n);
        let b = first_at(t, addr, n);
        assert forall|i: int| 0 <= i < f.len() implies s.contains(#[trigger] f[i]) by {
            if i < b.len() {
                assert(t.contains(b[i]));
                let j = choose|j: int| 0 <= j < t.len() && t[j] == b[i];
                assert(s[j] == f[i]);
            } else {
                assert(s[s.len() - 1] == f[i]);
            }
        }
    }
}

proof fn lemma_not_granted(granted: Seq<u64>, ws: Seq<FutexWaiter>, ticket: u64)
    requires
        !granted.contains(ticket),
        forall|i: int| 0 <= i < ws.len() ==> (#[trigger] ws[i]).ticket != ticket,
    ensures
        !(granted + tickets_of(ws)).contains(ticket),
{
    let g = granted + tickets_of(ws);
    if g.contains(ticket) {
        let j = choose|j: int| 0 <= j < g.len() && g[j] == ticket;
        if j < granted.len() {
            assert(granted[j] == ticket);
        } else {
            assert(ws[j - granted.len()].ticket == ticket);
        }
    }
}

} // verus!
