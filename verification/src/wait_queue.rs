//! A queue of threads that sleep on keys.

use vstd::prelude::*;

verus! {

/// A sleeping thread: the key that it sleeps on, the thread, and its flags.
pub type Sleeper = (u64, u64, u32);

/// Sleeping on `key`.
pub open spec fn on_key(key: u64) -> spec_fn(Sleeper) -> bool {
    |s: Sleeper| s.0 == key
}

/// Not sleeping on `key`.
pub open spec fn off_key(key: u64) -> spec_fn(Sleeper) -> bool {
    |s: Sleeper| s.0 != key
}

/// Being thread `th` asleep on `key`.
pub open spec fn asleep(key: u64, th: u64) -> spec_fn(Sleeper) -> bool {
    |s: Sleeper| s.0 == key && s.1 == th
}

/// Not being thread `th` asleep on `key`.
pub open spec fn awake(key: u64, th: u64) -> spec_fn(Sleeper) -> bool {
    |s: Sleeper| s.0 != key || s.1 != th
}

/// The order of flags, lowest first.
pub open spec fn flag_key() -> spec_fn(Sleeper) -> int {
    |s: Sleeper| s.2 as int
}

/// The threads of sleepers.
pub open spec fn threads(s: Seq<Sleeper>) -> Seq<u64> {
    s.map_values(|e: Sleeper| e.1)
}

/// `i` is the first place of a sleeper on `key`.
pub open spec fn first_on(s: Seq<Sleeper>, key: u64, i: int) -> bool {
    0 <= i < s.len() && s[i].0 == key && forall|j: int| 0 <= j < i ==> (#[trigger] s[j]).0 != key
}

/// Those of the first `n` sleepers for which the decision `d` is `want`.
pub open spec fn chosen(s: Seq<Sleeper>, d: Seq<bool>, want: bool, n: int) -> Seq<Sleeper>
    decreases n,
{
    if n <= 0 {
        Seq::empty()
    } else if d[n - 1] == want {
        chosen(s, d, want, n - 1).push(s[n - 1])
    } else {
        chosen(s, d, want, n - 1)
    }
}

/// The decisions `d` are what `pred` gives for the first `n` sleepers.
pub open spec fn decided<F: Fn(u64, u32) -> bool>(pred: F, s: Seq<Sleeper>, d: Seq<bool>, n: int) -> bool {
    d.len() == n && forall|i: int| 0 <= i < n ==> call_ensures(pred, ((#[trigger] s[i]).0, s[i].2), d[i])
}

/// The sleeping threads. Threads are known by number here; whoever runs them parks and unparks
/// them as these functions say.
pub struct WaitQueue {
    /// The sleepers, in the order in which they came.
    pub inner: Vec<Sleeper>,
    /// How many threads have been woken in all.
    pub wake_count: u64,
}

/// The sleepers after thread `th` went to sleep on `key`.
pub open spec fn put_to_sleep(s: Seq<Sleeper>, th: u64, key: u64, flags: u32) -> Seq<Sleeper> {
    s.push((key, th, flags))
}

/// Waking one sleeper on `key` takes thread `th` out, if there is one, and leaves `after`.
pub open spec fn one_woken(s: Seq<Sleeper>, key: u64, th: Option<u64>, after: Seq<Sleeper>) -> bool {
    match th {
        Some(t) => exists|i: int| #[trigger] first_on(s, key, i) && t == s[i].1 && after == s.remove(i),
        None => after == s && forall|i: int| 0 <= i < s.len() ==> (#[trigger] s[i]).0 != key,
    }
}

/// The threads that sleep on `key`, and the sleepers that are left without them.
pub open spec fn all_woken(s: Seq<Sleeper>, key: u64) -> (Seq<u64>, Seq<Sleeper>) {
    (threads(s.filter(on_key(key))), s.filter(off_key(key)))
}

impl WaitQueue {
    /// An empty queue.
    pub fn new() -> (q: Self)
        ensures
            q.inner@ == Seq::<Sleeper>::empty(),
            q.wake_count == 0,
    {
        WaitQueue { inner: Vec::new(), wake_count: 0 }
    }

    /// Puts thread `th` to sleep on `key`: it is queued, and its caller parks it.
    pub fn sleep(&mut self, th: u64, key: u64, flags: u32)
        ensures
            final(self).inner@ == put_to_sleep(old(self).inner@, th, key, flags),
            final(self).inner@ == old(self).inner@.push((key, th, flags)),
            final(self).wake_count == old(self).wake_count,
    {
        self.inner.push((key, th, flags));
    }

    /// Ends a sleep of thread `th` on `key` that had a timeout. Tells whether the sleep has run out:
    /// nobody woke the thread, so that it was still queued, which it no longer is.
    pub fn sleep_timeout(&mut self, th: u64, key: u64) -> (timed_out: bool)
        ensures
            timed_out == exists|i: int| 0 <= i < old(self).inner@.len() && asleep(key, th)(#[trigger] old(self).inner@[i]),
            final(self).inner@ == old(self).inner@.filter(awake(key, th)),
            final(self).wake_count == old(self).wake_count,
    {
        let ghost s = self.inner@;
        let ghost p = awake(key, th);
        let mut rest: Vec<Sleeper> = Vec::new();
        let mut found = false;
        let mut i: usize = 0;
        proof {
            crate::seqs::lemma_filter_ends(s, p);
        }
        while i < self.inner.len()
            invariant
                s == self.inner@,
                *self == *old(self),
                p == awake(key, th),
                i <= s.len(),
                found == exists|j: int| 0 <= j < i && asleep(key, th)(#[trigger] s[j]),
                rest@ == s.take(i as int).filter(p),
            decreases s.len() - i,
        {
            proof {
                crate::seqs::lemma_filter_step(s, i as int, p);
            }
            let e = self.inner[i];
            if e.0 == key && e.1 == th {
                found = true;
                assert(asleep(key, th)(s[i as int]));
            } else {
                rest.push(e);
            }
            i += 1;
        }
        proof {
            crate::seqs::lemma_filter_ends(s, p);
        }
        self.inner = rest;
        found
    }

    /// Takes the first sleeper on `key` out, to be woken.
    pub fn wake_one(&mut self, key: u64) -> (th: Option<u64>)
        ensures
            one_woken(old(self).inner@, key, th, final(self).inner@),
            th is None ==> *final(self) == *old(self) && forall|i: int|
                0 <= i < old(self).inner@.len() ==> (#[trigger] old(self).inner@[i]).0 != key,
            th matches Some(t) ==> exists|i: int| #[trigger]
                first_on(old(self).inner@, key, i) && t == old(self).inner@[i].1 && final(self).inner@
                    == old(self).inner@.remove(i) && final(self).wake_count == old(self).wake_count.wrapping_add(1),
    {
        let mut i: usize = 0;
        while i < self.inner.len()
            invariant
                *self == *old(self),
                i <= self.inner@.len(),
                forall|j: int| 0 <= j < i ==> (#[trigger] self.inner@[j]).0 != key,
            decreases self.inner@.len() - i,
        {
            if self.inner[i].0 == key {
                assert(first_on(self.inner@, key, i as int));
                let e = self.inner.remove(i);
                self.wake_count = self.wake_count.wrapping_add(1);
                return Some(e.1);
            }
            i += 1;
        }
        None
    }

    /// Takes all sleepers on `key` out, to be woken.
    pub fn wake_all(&mut self, key: u64) -> (woken: Vec<u64>)
        ensures
            (woken@, final(self).inner@) == all_woken(old(self).inner@, key),
            final(self).inner@ == old(self).inner@.filter(off_key(key)),
            woken@ == threads(old(self).inner@.filter(on_key(key))),
            final(self).wake_count == old(self).wake_count.wrapping_add(woken@.len() as u64),
    {
        let ghost s = self.inner@;
        let ghost p = on_key(key);
        let ghost q = off_key(key);
        let mut woken: Vec<u64> = Vec::new();
        let mut rest: Vec<Sleeper> = Vec::new();
        let mut i: usize = 0;
        proof {
            crate::seqs::lemma_filter_ends(s, p);
            crate::seqs::lemma_filter_ends(s, q);
            assert(woken@ =~= threads(s.take(0).filter(p)));
        }
        while i < self.inner.len()
            invariant
                s == self.inner@,
                *self == *old(self),
                p == on_key(key),
                q == off_key(key),
                i <= s.len(),
                woken@ == threads(s.take(i as int).filter(p)),
                rest@ == s.take(i as int).filter(q),
            decreases s.len() - i,
        {
            proof {
                crate::seqs::lemma_filter_step(s, i as int, p);
                crate::seqs::lemma_filter_step(s, i as int, q);
            }
            let e = self.inner[i];
            if e.0 == key {
                woken.push(e.1);
                assert(woken@ =~= threads(s.take(i + 1).filter(p)));
            } else {
                rest.push(e);
            }
            i += 1;
        }
        proof {
            crate::seqs::lemma_filter_ends(s, p);
            crate::seqs::lemma_filter_ends(s, q);
        }
        self.inner = rest;
        self.wake_count = self.wake_count.wrapping_add(woken.len() as u64);
        woken
    }

    /// Takes the sleepers out whose key and flags `pred` accepts, to be woken.
    pub fn wake_filtered<F: Fn(u64, u32) -> bool>(&mut self, pred: F) -> (woken: Vec<u64>)
        requires
            forall|i: int|
                0 <= i < old(self).inner@.len() ==> call_requires(
                    pred,
                    ((#[trigger] old(self).inner@[i]).0, old(self).inner@[i].2),
                ),
        ensures
            exists|d: Seq<bool>| #[trigger]
                decided(pred, old(self).inner@, d, old(self).inner@.len() as int) && final(self).inner@ == chosen(
                    old(self).inner@,
                    d,
                    false,
                    d.len() as int,
                ) && woken@ == threads(chosen(old(self).inner@, d, true, d.len() as int)),
            final(self).wake_count == old(self).wake_count.wrapping_add(woken@.len() as u64),
    {
        let ghost s = self.inner@;
        let ghost mut d: Seq<bool> = Seq::empty();
        let mut woken: Vec<u64> = Vec::new();
        let mut rest: Vec<Sleeper> = Vec::new();
        let mut i: usize = 0;
        assert(woken@ =~= threads(chosen(s, d, true, 0)));
        while i < self.inner.len()
            invariant
                s == self.inner@,
                *self == *old(self),
                i <= s.len(),
                forall|i: int| 0 <= i < s.len() ==> call_requires(pred, ((#[trigger] s[i]).0, s[i].2)),
                decided(pred, s, d, i as int),
                rest@ == chosen(s, d, false, i as int),
                woken@ == threads(chosen(s, d, true, i as int)),
            decreases s.len() - i,
        {
            let e = self.inner[i];
            assert(e == s[i as int]);
            let yes = pred(e.0, e.2);
            let ghost d0 = d;
            proof {
                d = d.push(yes);
                lemma_chosen_ext(s, d0, d, true, i as int);
                lemma_chosen_ext(s, d0, d, false, i as int);
            }
            if yes {
                woken.push(e.1);
                assert(woken@ =~= threads(chosen(s, d, true, i + 1)));
            } else {
                rest.push(e);
            }
            i += 1;
        }
        self.inner = rest;
        self.wake_count = self.wake_count.wrapping_add(woken.len() as u64);
        woken
    }

    /// How many threads sleep.
    pub fn pending_count(&self) -> (n: usize)
        ensures
            n == self.inner@.len(),
    {
        self.inner.len()
    }

    /// How many threads have been woken in all.
    pub fn total_wakes(&self) -> (n: u64)
        ensures
            n == self.wake_count,
    {
        self.wake_count
    }

    /// Whether somebody sleeps on `key`.
    pub fn has_waiters_for(&self, key: u64) -> (r: bool)
        ensures
            r == exists|i: int| 0 <= i < self.inner@.len() && (#[trigger] self.inner@[i]).0 == key,
    {
        let mut i: usize = 0;
        while i < self.inner.len()
            invariant
                i <= self.inner@.len(),
                forall|j: int| 0 <= j < i ==> (#[trigger] self.inner@[j]).0 != key,
            decreases self.inner@.len() - i,
        {
            if self.inner[i].0 == key {
                assert(self.inner@[i as int].0 == key);
                return true;
            }
            i += 1;
        }
        false
    }

    /// Orders the queue by the flags; the lower number is the higher priority. Sleepers with equal
    /// flags keep their order.
    pub fn reorder_by_priority(&mut self)
        ensures
            final(self).inner@ == crate::seqs::stable_sorted(old(self).inner@, flag_key()),
            crate::seqs::sorted_by(final(self).inner@, flag_key()),
            final(self).inner@.to_multiset() == old(self).inner@.to_multiset(),
            final(self).wake_count == old(self).wake_count,
    {
        let ghost whole = self.inner@;
        let ghost key = flag_key();
        let n = self.inner.len();
        let mut sorted: Vec<Sleeper> = Vec::new();
        let mut i: usize = 0;
        assert(whole.take(0) =~= Seq::<Sleeper>::empty());
        while i < n
            invariant
                self.inner@ == whole,
                *self == *old(self),
                n == whole.len(),
                i <= n,
                key == flag_key(),
                sorted@ == crate::seqs::stable_sorted(whole.take(i as int), key),
            decreases n - i,
        {
            let x = self.inner[i];
            let mut p: usize = sorted.len();
            while p > 0 && sorted[p - 1].2 > x.2
                invariant
                    p <= sorted@.len(),
                    key == flag_key(),
                    forall|k: int| p <= k < sorted@.len() ==> key(#[trigger] sorted@[k]) > key(x),
                ensures
                    p <= sorted@.len(),
                    p > 0 ==> key(sorted@[p - 1]) <= key(x),
                    forall|k: int| p <= k < sorted@.len() ==> key(#[trigger] sorted@[k]) > key(x),
                decreases p,
            {
                p -= 1;
            }
            proof {
                crate::seqs::lemma_place(sorted@, x, key, p as int);
                assert(whole.take(i + 1).drop_last() =~= whole.take(i as int));
            }
            sorted.insert(p, x);
            i += 1;
        }
        assert(whole.take(n as int) =~= whole);
        proof {
            crate::seqs::lemma_stable_sorted(whole, key);
        }
        self.inner = sorted;
    }
}

proof fn lemma_chosen_ext(s: Seq<Sleeper>, d: Seq<bool>, e: Seq<bool>, want: bool, n: int)
    requires
        n <= d.len(),
        n <= e.len(),
        forall|i: int| 0 <= i < n ==> d[i] == e[i],
    ensures
        chosen(s, d, want, n) == chosen(s, e, want, n),
    decreases n,
{
    if n > 0 {
        lemma_chosen_ext(s, d, e, want, n - 1);
    }
}

proof fn lemma_split(s: Seq<Sleeper>, key: u64)
    ensures
        s.filter(on_key(key)).len() + s.filter(off_key(key)).len() == s.len(),
    decreases s.len(),
{
    reveal(Seq::filter);
    if s.len() > 0 {
        lemma_split(s.drop_last(), key);
    }
}

/// Waking all sleepers on a key wakes each of them, and nobody else: afterwards no one sleeps on
/// the key, everyone else still does, and no sleeper is lost.
pub proof fn law_wake_all_exactly(s: Seq<Sleeper>, key: u64)
    ensures
        forall|e: Sleeper| #[trigger] s.filter(off_key(key)).contains(e) <==> s.contains(e) && e.0 != key,
        forall|e: Sleeper| #[trigger] s.filter(on_key(key)).contains(e) <==> s.contains(e) && e.0 == key,
        threads(s.filter(on_key(key))).len() + s.filter(off_key(key)).len() == s.len(),
{
    crate::seqs::lemma_filter_contains(s, on_key(key));
    crate::seqs::lemma_filter_contains(s, off_key(key));
    lemma_split(s, key);
}

/// Sleepers on one key are woken in the order in which they came.
pub proof fn law_wake_one_is_first(s: Seq<Sleeper>, key: u64, i: int)
    requires
        first_on(s, key, i),
    ensures
        s.filter(on_key(key)).len() > 0,
        s.filter(on_key(key))[0] == s[i],
    decreases s.len(),
{
    reveal(Seq::filter);
    if i < s.len() - 1 {
        let t = s.drop_last();
        assert(first_on(t, key, i));
        law_wake_one_is_first(t, key, i);
    } else {
        let t = s.drop_last();
        crate::seqs::lemma_filter_contains(t, on_key(key));
        if t.filter(on_key(key)).len() > 0 {
            let f = t.filter(on_key(key));
            assert(f.contains(f[0]));
            let j = choose|j: int| 0 <= j < t.len() && t[j] == f[0];
            assert(s[j].0 != key);
        }
    }
}

/// A thread that went to sleep is woken by the key it sleeps on: by one wake-up if nobody slept on
/// that key before it, and after those who did otherwise. A wake-up by another key does not find it.
pub proof fn law_sleeper_is_woken(
    s: Seq<Sleeper>,
    th: u64,
    key: u64,
    flags: u32,
    other: u64,
    r: Option<u64>,
    after: Seq<Sleeper>,
)
    requires
        one_woken(put_to_sleep(s, th, key, flags), other, r, after),
    ensures
        other == key && (forall|i: int| 0 <= i < s.len() ==> (#[trigger] s[i]).0 != key) ==> r == Some(th) && after == s,
        other == key ==> r is Some,
        forall|i: int| #[trigger] first_on(s, key, i) && other == key ==> r == Some(s[i].1) && after.contains((key, th, flags)),
        other != key ==> after.contains((key, th, flags)),
{
    let q = put_to_sleep(s, th, key, flags);
    let n = s.len() as int;
    assert(q[n] == (key, th, flags));
    if r is Some {
        let x = choose|x: int| #[trigger] first_on(q, other, x) && r->0 == q[x].1 && after == q.remove(x);
        if other == key && (forall|i: int| 0 <= i < s.len() ==> (#[trigger] s[i]).0 != key) {
            assert(x == n) by {
                if x < n {
                    assert(s[x].0 == key);
                }
            }
            assert(q.remove(n) =~= s);
        }
        if x < n {
            assert(after[n - 1] == (key, th, flags));
        }
        assert forall|i: int| #[trigger] first_on(s, key, i) && other == key implies r == Some(s[i].1) && after.contains(
            (key, th, flags),
        ) by {
            assert(q[i] == s[i]);
            if x < i {
                assert(s[x].0 == key);
            }
            if i < x {
                assert(q[i].0 != key);
            }
        }
    }
}

/// Waking all of a key wakes everybody who sleeps on it, and a second time nobody.
pub proof fn law_nobody_is_woken_twice(s: Seq<Sleeper>, key: u64)
    ensures
        all_woken(s, key).0.len() + all_woken(s, key).1.len() == s.len(),
        all_woken(all_woken(s, key).1, key).0.len() == 0,
{
    law_wake_all_exactly(s, key);
    let left = s.filter(off_key(key));
    let again = left.filter(on_key(key));
    crate::seqs::lemma_filter_contains(left, on_key(key));
    if again.len() > 0 {
        assert(again.contains(again[0]));
        assert(left.contains(again[0]));
    }
}

/// A thread whose time is over sleeps on the key no longer, and all others sleep on.
pub proof fn law_time_over_wakes(s: Seq<Sleeper>, key: u64, th: u64, x: Sleeper)
    ensures
        s.filter(awake(key, th)).contains(x) <==> s.contains(x) && !(x.0 == key && x.1 == th),
        s.contains(x) && x.0 == key && x.1 == th ==> exists|i: int| 0 <= i < s.len() && asleep(key, th)(#[trigger] s[i]),
{
    crate::seqs::lemma_filter_contains(s, awake(key, th));
    if s.contains(x) && x.0 == key && x.1 == th {
        let i = choose|i: int| 0 <= i < s.len() && s[i] == x;
        assert(asleep(key, th)(s[i]));
    }
}

/// Of the sleepers that were looked at each is either woken or sleeps on.
pub proof fn law_chosen_or_left(s: Seq<Sleeper>, d: Seq<bool>, n: int, i: int)
    requires
        0 <= i < n <= s.len(),
    ensures
        chosen(s, d, true, n).len() + chosen(s, d, false, n).len() == n,
        chosen(s, d, d[i], n).contains(s[i]),
    decreases n,
{
    if n == 1 {
        assert(chosen(s, d, true, 0).len() == 0 && chosen(s, d, false, 0).len() == 0);
        assert(chosen(s, d, d[i], n)[0] == s[i]);
    } else if i < n - 1 {
        law_chosen_or_left(s, d, n - 1, i);
        let c = chosen(s, d, d[i], n - 1);
        let j = choose|j: int| 0 <= j < c.len() && c[j] == s[i];
        assert(chosen(s, d, d[i], n)[j] == s[i]);
    } else {
        law_chosen_or_left(s, d, n - 1, 0);
        assert(chosen(s, d, d[i], n).last() == s[i]);
    }
}

/// Sleepers in the order of their flags have the lower flags first.
pub proof fn law_low_flags_first(s: Seq<Sleeper>, i: int, j: int)
    requires
        crate::seqs::sorted_by(s, flag_key()),
        0 <= i < j < s.len(),
    ensures
        s[i].2 <= s[j].2,
{
    assert(flag_key()(s[i]) <= flag_key()(s[j]));
}

} // verus!
