//! An ordered map from `u64` keys to values, kept as two parallel vectors in ascending key order.
//!
//! The kernel's tables (tasks, descriptors, inodes, pages) are keyed by numbers and walked in
//! ascending order. `OrdMap` is viewed as a mathematical `Map`; [`OrdMap::key_seq`] is the
//! ascending list of its keys, which is what a walk visits.

use vstd::prelude::*;

verus! {

/// A map whose keys are walked in ascending order.
pub struct OrdMap<V> {
    keys: Vec<u64>,
    vals: Vec<V>,
}

impl<V> OrdMap<V> {
    /// Keys ascend and every key has a value.
    pub closed spec fn wf(&self) -> bool {
        &&& self.keys@.len() == self.vals@.len()
        &&& crate::seqs::ascending(self.keys@)
    }

    /// The keys, in ascending order.
    pub closed spec fn key_seq(&self) -> Seq<u64> {
        self.keys@
    }

    /// The mapping itself.
    pub closed spec fn view(&self) -> Map<u64, V> {
        Map::new(
            |k: u64| self.keys@.contains(k),
            |k: u64| self.vals@[self.keys@.index_of(k)],
        )
    }

    /// The key list of a well-formed map ascends and lists exactly the domain.
    pub proof fn lemma_key_seq(&self)
        requires
            self.wf(),
        ensures
            crate::seqs::ascending(self.key_seq()),
            forall|k: u64| #![auto] self.key_seq().contains(k) <==> self@.dom().contains(k),
            forall|i: int| 0 <= i < self.key_seq().len() ==> self@.dom().contains(#[trigger] self.key_seq()[i]),
            self@.dom().finite(),
            self@.len() == self.key_seq().len(),
            self.key_seq().len() <= usize::MAX,
    {
        assert(self.keys.len() == self.keys@.len());
        assert forall|i: int| 0 <= i < self.keys@.len() implies self@.dom().contains(#[trigger] self.key_seq()[i]) by {
            assert(self.keys@.contains(self.keys@[i]));
        }
        assert(self.keys@.no_duplicates()) by {
            assert forall|i: int, j: int| 0 <= i < self.keys@.len() && 0 <= j < self.keys@.len() && i != j
                implies self.keys@[i] != self.keys@[j] by {
                if i < j {} else {}
            }
        }
        self.keys@.unique_seq_to_set();
        assert(self@.dom() =~= self.keys@.to_set());
    }

    proof fn lemma_at(&self, i: int)
        requires
            self.wf(),
            0 <= i < self.keys@.len(),
        ensures
            self.keys@.index_of(self.keys@[i]) == i,
            self@.dom().contains(self.keys@[i]),
            self@[self.keys@[i]] == self.vals@[i],
    {
        assert(self.keys@.contains(self.keys@[i]));
        let j = self.keys@.index_of(self.keys@[i]);
        assert(0 <= j < self.keys@.len() && self.keys@[j] == self.keys@[i]);
        if j < i {
        } else if i < j {
        }
    }

    /// An empty map.
    pub fn new() -> (m: Self)
        ensures
            m.wf(),
            m@ == Map::<u64, V>::empty(),
            m.key_seq() == Seq::<u64>::empty(),
    {
        let m = OrdMap { keys: Vec::new(), vals: Vec::new() };
        assert(m@ =~= Map::<u64, V>::empty());
        m
    }

    /// First position whose key is not below `k`, and whether that key is `k`.
    fn pos(&self, k: u64) -> (r: (usize, bool))
        requires
            self.wf(),
        ensures
            r.0 <= self.keys@.len(),
            r.1 <==> self@.dom().contains(k),
            r.1 ==> r.0 < self.keys@.len() && self.keys@[r.0 as int] == k && self@[k] == self.vals@[r.0 as int],
            forall|i: int| 0 <= i < r.0 ==> self.keys@[i] < k,
            forall|i: int| r.0 <= i < self.keys@.len() ==> k <= self.keys@[i],
            !r.1 ==> forall|i: int| r.0 <= i < self.keys@.len() ==> k < self.keys@[i],
    {
        let mut lo: usize = 0;
        let mut hi: usize = self.keys.len();
        while lo < hi
            invariant
                self.wf(),
                lo <= hi <= self.keys@.len(),
                forall|i: int| 0 <= i < lo ==> self.keys@[i] < k,
                forall|i: int| hi <= i < self.keys@.len() ==> k <= self.keys@[i],
            decreases hi - lo,
        {
            let mid: usize = lo + (hi - lo) / 2;
            if self.keys[mid] < k {
                lo = mid + 1;
            } else {
                hi = mid;
            }
        }
        let hit = lo < self.keys.len() && self.keys[lo] == k;
        proof {
            if hit {
                self.lemma_at(lo as int);
            } else if self.keys@.contains(k) {
                let j = self.keys@.index_of(k);
                assert(self.keys@[j] == k);
                if lo < j {
                    assert(self.keys@[lo as int] < self.keys@[j]);
                }
                assert(false);
            }
        }
        (lo, hit)
    }

    /// Number of entries.
    pub fn len(&self) -> (n: usize)
        requires
            self.wf(),
        ensures
            n == self.key_seq().len(),
            n == self@.len(),
    {
        proof {
            self.lemma_key_seq();
        }
        self.keys.len()
    }

    /// Whether `k` has an entry.
    pub fn contains_key(&self, k: u64) -> (b: bool)
        requires
            self.wf(),
        ensures
            b == self@.dom().contains(k),
    {
        self.pos(k).1
    }

    /// The value of `k`.
    pub fn get(&self, k: u64) -> (r: Option<&V>)
        requires
            self.wf(),
        ensures
            r is Some <==> self@.dom().contains(k),
            r matches Some(v) ==> *v == self@[k],
    {
        let (i, hit) = self.pos(k);
        if hit {
            Some(&self.vals[i])
        } else {
            None
        }
    }

    /// The value of `k`, to be changed in place.
    pub fn get_mut(&mut self, k: u64) -> (r: Option<&mut V>)
        requires
            old(self).wf(),
        ensures
            final(self).wf(),
            final(self).key_seq() == old(self).key_seq(),
            r is Some <==> old(self)@.dom().contains(k),
            match r {
                Some(p) => *p == old(self)@[k] && final(self)@ == old(self)@.insert(k, *final(p)),
                None => *final(self) == *old(self),
            },
    {
        let (i, hit) = self.pos(k);
        if hit {
            Some(&mut self.vals[i])
        } else {
            None
        }
    }

    /// Binds `k` to `v` and hands back the value it had.
    pub fn insert(&mut self, k: u64, v: V) -> (r: Option<V>)
        requires
            old(self).wf(),
        ensures
            final(self).wf(),
            final(self)@ == old(self)@.insert(k, v),
            r == (if old(self)@.dom().contains(k) { Some(old(self)@[k]) } else { None }),
            old(self)@.dom().contains(k) ==> final(self).key_seq() == old(self).key_seq(),
    {
        let ghost before = *self;
        let (i, hit) = self.pos(k);
        let mut slot: Option<V> = None;
        if hit {
            let mut v = v;
            std::mem::swap(&mut self.vals[i], &mut v);
            slot = Some(v);
        } else {
            self.keys.insert(i, k);
            self.vals.insert(i, v);
        }
        proof {
            assert(self.wf());
            assert forall|q: u64| #![auto] self@.dom().contains(q) <==> before@.insert(k, v).dom().contains(q) by {
                if before.keys@.contains(q) {
                    let j = before.keys@.index_of(q);
                    if hit || j < i {
                        assert(self.keys@[j] == q);
                    } else {
                        assert(self.keys@[j + 1] == q);
                    }
                }
                assert(self.keys@[i as int] == k);
            }
            assert forall|q: u64| self@.dom().contains(q) implies self@[q] == before@.insert(k, v)[q] by {
                let j = self.keys@.index_of(q);
                self.lemma_at(j);
                self.lemma_at(i as int);
                if q != k {
                    if hit || j < i {
                        before.lemma_at(j);
                    } else {
                        before.lemma_at(j - 1);
                    }
                }
            }
            assert(self@ =~= before@.insert(k, v));
        }
        slot
    }

    /// Drops the entry of `k` and hands back its value.
    pub fn remove(&mut self, k: u64) -> (r: Option<V>)
        requires
            old(self).wf(),
        ensures
            final(self).wf(),
            final(self)@ == old(self)@.remove(k),
            r == (if old(self)@.dom().contains(k) { Some(old(self)@[k]) } else { None }),
    {
        let ghost before = *self;
        let (i, hit) = self.pos(k);
        if hit {
            let v = self.vals.remove(i);
            self.keys.remove(i);
            proof {
                assert(self.wf());
                assert forall|q: u64| #![auto] self@.dom().contains(q) <==> before@.remove(k).dom().contains(q) by {
                    if before.keys@.contains(q) && q != k {
                        let j = before.keys@.index_of(q);
                        if j < i {
                            assert(self.keys@[j] == q);
                        } else {
                            assert(self.keys@[j - 1] == q);
                        }
                    }
                    if self.keys@.contains(q) {
                        let j = self.keys@.index_of(q);
                        if j < i {
                            assert(before.keys@[j] == q);
                        } else {
                            assert(before.keys@[j + 1] == q);
                        }
                    }
                }
                assert forall|q: u64| self@.dom().contains(q) implies self@[q] == before@.remove(k)[q] by {
                    let j = self.keys@.index_of(q);
                    self.lemma_at(j);
                    if j < i {
                        before.lemma_at(j);
                    } else {
                        before.lemma_at(j + 1);
                    }
                }
                assert(self@ =~= before@.remove(k));
            }
            Some(v)
        } else {
            proof {
                assert(self@ =~= before@.remove(k));
            }
            None
        }
    }

    /// The `i`-th key in ascending order.
    pub fn key_at(&self, i: usize) -> (k: u64)
        requires
            self.wf(),
            i < self.key_seq().len(),
        ensures
            k == self.key_seq()[i as int],
            self@.dom().contains(k),
    {
        proof {
            self.lemma_at(i as int);
        }
        self.keys[i]
    }

    /// The value of the `i`-th key in ascending order.
    pub fn val_at(&self, i: usize) -> (v: &V)
        requires
            self.wf(),
            i < self.key_seq().len(),
        ensures
            *v == self@[self.key_seq()[i as int]],
    {
        proof {
            self.lemma_at(i as int);
        }
        &self.vals[i]
    }

    /// The value of the `i`-th key in ascending order, to be changed in place.
    pub fn val_at_mut(&mut self, i: usize) -> (v: &mut V)
        requires
            old(self).wf(),
            i < old(self).key_seq().len(),
        ensures
            *v == old(self)@[old(self).key_seq()[i as int]],
            final(self).wf(),
            final(self).key_seq() == old(self).key_seq(),
            final(self)@ == old(self)@.insert(old(self).key_seq()[i as int], *final(v)),
    {
        proof {
            self.lemma_at(i as int);
        }
        &mut self.vals[i]
    }

    /// All keys in ascending order.
    pub fn keys(&self) -> (ks: Vec<u64>)
        requires
            self.wf(),
        ensures
            ks@ == self.key_seq(),
    {
        let mut ks: Vec<u64> = Vec::new();
        let mut i: usize = 0;
        while i < self.keys.len()
            invariant
                i <= self.keys@.len(),
                ks@ == self.keys@.subrange(0, i as int),
            decreases self.keys@.len() - i,
        {
            ks.push(self.keys[i]);
            i += 1;
            assert(self.keys@.subrange(0, i as int) =~= self.keys@.subrange(0, i - 1).push(self.keys@[i - 1]));
        }
        assert(self.keys@.subrange(0, i as int) =~= self.keys@);
        ks
    }

    proof fn lemma_run(&self, from: u64, k: nat)
        requires
            self.wf(),
            k > 0,
            from + k <= u64::MAX + 1,
            forall|q: u64| from <= q < from + k ==> self@.dom().contains(q),
        ensures
            exists|i: int| k - 1 <= i < self.keys@.len() && #[trigger] self.keys@[i] == from + k - 1,
        decreases k,
    {
        let q = (from + k - 1) as u64;
        self.lemma_key_seq();
        assert(self@.dom().contains(q));
        assert(self.key_seq().contains(q));
        let i = choose|i: int| 0 <= i < self.keys@.len() && self.keys@[i] == q;
        if k > 1 {
            self.lemma_run(from, (k - 1) as nat);
            let j = choose|j: int| k - 2 <= j < self.keys@.len() && #[trigger] self.keys@[j] == from + k - 2;
            if i <= j {
                if i < j {
                    assert(self.keys@[i] < self.keys@[j]);
                }
            }
        }
        assert(k - 1 <= i);
    }

    /// There always is a number that is no key.
    pub proof fn lemma_room(&self)
        requires
            self.wf(),
            self.key_seq().len() <= u64::MAX,
        ensures
            exists|q: u64| q >= 0 && !self@.dom().contains(q),
    {
        if forall|q: u64| self@.dom().contains(q) {
            self.lemma_run(0, (u64::MAX + 1) as nat);
        }
    }

    /// The lowest number that is no key.
    pub fn lowest_free(&self) -> (r: u64)
        requires
            self.wf(),
        ensures
            !self@.dom().contains(r),
            forall|q: u64| q < r ==> self@.dom().contains(q),
    {
        let _n = self.keys.len();
        proof {
            self.lemma_room();
        }
        self.first_free(0)
    }

    /// The lowest number from `from` on that is no key.
    pub fn first_free(&self, from: u64) -> (r: u64)
        requires
            self.wf(),
            exists|q: u64| q >= from && !self@.dom().contains(q),
        ensures
            from <= r,
            !self@.dom().contains(r),
            forall|q: u64| from <= q < r ==> self@.dom().contains(q),
    {
        let mut r: u64 = from;
        while self.contains_key(r)
            invariant
                self.wf(),
                from <= r,
                exists|q: u64| q >= from && !self@.dom().contains(q),
                forall|q: u64| from <= q < r ==> self@.dom().contains(q),
            decreases u64::MAX - r,
        {
            if r == u64::MAX {
                assert(false);
            }
            r += 1;
        }
        r
    }
}

} // verus!
