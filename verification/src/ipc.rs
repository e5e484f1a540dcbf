//! Semaphore arrays and shared memory.
//!
//! An array and a shared memory live as long as somebody holds them; the tables under their keys
//! hold nothing. What is held lives in a heap, is named by its number there, and has a count of
//! its holders.

use vstd::prelude::*;
use crate::ordmap::OrdMap;
use crate::semaphore::{Sema, SemaState};

verus! {

/// Number of a semaphore array in a process.
pub type SemId = u64;

/// Number of a semaphore in its array.
pub type SemNum = u16;

/// What is done to a semaphore.
pub type SemOp = i16;

/// Number of a shared memory in a process.
pub type ShmId = u64;

/// Who may use an array.
#[derive(Clone, Copy, PartialEq, Eq, Structural, Debug)]
pub struct IpcPerm {
    /// Key.
    pub key: u32,
    /// User of the owner.
    pub uid: u32,
    /// Group of the owner.
    pub gid: u32,
    /// User of the creator.
    pub cuid: u32,
    /// Group of the creator.
    pub cgid: u32,
    /// Permission bits.
    pub mode: u32,
    /// Sequence number.
    pub seq: u32,
    /// Reserved.
    pub pad1: u64,
    /// Reserved.
    pub pad2: u64,
}

/// What is known of an array.
#[derive(Clone, Copy, PartialEq, Eq, Structural, Debug)]
pub struct SemDs {
    /// Who may use it.
    pub perm: IpcPerm,
    /// Time of the last operation.
    pub otime: u64,
    /// Time of the last change.
    pub ctime: u64,
    /// Number of semaphores.
    pub nsems: usize,
}

/// An array of semaphores.
pub struct SemArr {
    /// What is known of it.
    pub ds: SemDs,
    /// The semaphores.
    pub sems: Vec<Sema>,
}

/// An array of semaphores, as values.
#[verifier::ext_equal]
pub struct SemArrState {
    /// What is known of it.
    pub ds: SemDs,
    /// The semaphores.
    pub sems: Seq<SemaState>,
}

/// The arrays, how many hold each, and the keys under which they can be found.
pub struct SemHeap {
    /// The arrays.
    pub arrays: Vec<SemArr>,
    /// How many hold each.
    pub refs: Vec<u64>,
    /// The keys.
    pub store: OrdMap<usize>,
}

/// The arrays, how many hold each, and the keys, as values.
#[verifier::ext_equal]
pub struct SemHeapState {
    /// The arrays.
    pub arrays: Seq<SemArrState>,
    /// How many hold each.
    pub refs: Seq<u64>,
    /// The keys.
    pub store: Map<u64, usize>,
}

/// `k` is the lowest number from `from` on that is no key.
pub open spec fn lowest_key<V>(m: Map<u64, V>, from: u64, k: u64) -> bool {
    from <= k && !m.dom().contains(k) && forall|q: u64| from <= q < k ==> m.dom().contains(q)
}

/// One more holder of each of the first `n` of `t`.
pub open spec fn held(refs: Seq<u64>, t: Seq<usize>, n: int) -> Seq<u64>
    decreases n,
{
    if n <= 0 {
        refs
    } else {
        let r = held(refs, t, n - 1);
        r.update(t[n - 1] as int, (r[t[n - 1] as int] + 1) as u64)
    }
}

/// One holder less of each of the first `n` of `t`.
pub open spec fn let_go(refs: Seq<u64>, t: Seq<usize>, n: int) -> Seq<u64>
    decreases n,
{
    if n <= 0 {
        refs
    } else {
        let r = let_go(refs, t, n - 1);
        r.update(t[n - 1] as int, (r[t[n - 1] as int] - 1) as u64)
    }
}

/// How often `i` occurs among the first `n` of `t`.
pub open spec fn times(t: Seq<usize>, i: int, n: int) -> int
    decreases n,
{
    if n <= 0 {
        0
    } else {
        times(t, i, n - 1) + (if t[n - 1] == i {
            1int
        } else {
            0
        })
    }
}

/// Holding and letting go count by occurrences.
pub proof fn lemma_held(refs: Seq<u64>, t: Seq<usize>, n: int)
    requires
        0 <= n <= t.len(),
        forall|k: int| 0 <= k < n ==> (#[trigger] t[k]) < refs.len(),
        forall|i: int| 0 <= i < refs.len() ==> (#[trigger] refs[i]) + n <= u64::MAX,
    ensures
        held(refs, t, n).len() == refs.len(),
        forall|i: int| 0 <= i < refs.len() ==> (#[trigger] held(refs, t, n)[i]) == refs[i] + times(t, i, n),
        forall|i: int| 0 <= #[trigger] times(t, i, n) <= n,
    decreases n,
{
    if n > 0 {
        lemma_held(refs, t, n - 1);
        assert forall|i: int| 0 <= #[trigger] times(t, i, n) <= n by {
            assert(0 <= times(t, i, n - 1) <= n - 1);
        }
    }
}

proof fn lemma_times(t: Seq<usize>, i: int, m: int, n: int)
    requires
        0 <= m <= n,
    ensures
        0 <= times(t, i, m) <= times(t, i, n),
    decreases n,
{
    if m < n {
        lemma_times(t, i, m, n - 1);
    } else if m > 0 {
        lemma_times(t, i, m - 1, n - 1);
    }
}

/// Letting go counts by occurrences.
pub proof fn lemma_let_go(refs: Seq<u64>, t: Seq<usize>, n: int)
    requires
        0 <= n <= t.len(),
        forall|k: int| 0 <= k < n ==> (#[trigger] t[k]) < refs.len(),
        forall|i: int| 0 <= i < refs.len() ==> (#[trigger] refs[i]) >= times(t, i, n),
    ensures
        let_go(refs, t, n).len() == refs.len(),
        forall|i: int| 0 <= i < refs.len() ==> (#[trigger] let_go(refs, t, n)[i]) == refs[i] - times(t, i, n),
    decreases n,
{
    if n > 0 {
        assert forall|i: int| 0 <= i < refs.len() implies (#[trigger] refs[i]) >= times(t, i, n - 1) by {
            lemma_times(t, i, n - 1, n);
        }
        lemma_let_go(refs, t, n - 1);
    }
}

impl SemArr {
    /// The array as values.
    pub open spec fn view(&self) -> SemArrState {
        SemArrState { ds: self.ds, sems: self.sems@.map_values(|s: Sema| s@) }
    }

    /// Removes every semaphore of the array.
    pub fn remove(&mut self)
        ensures
            final(self)@ == (SemArrState {
                ds: old(self)@.ds,
                sems: old(self)@.sems.map_values(|s: SemaState| s.removed()),
            }),
    {
        let ghost all = self@.sems;
        let mut i: usize = 0;
        while i < self.sems.len()
            invariant
                i <= self.sems@.len(),
                self.sems@.len() == all.len(),
                all == old(self)@.sems,
                self.ds == old(self).ds,
                forall|k: int| 0 <= k < i ==> (#[trigger] self.sems@[k])@ == all[k].removed(),
                forall|k: int| i <= k < all.len() ==> (#[trigger] self.sems@[k])@ == all[k],
            decreases self.sems@.len() - i,
        {
            self.sems[i].remove();
            i += 1;
        }
        assert(self@.sems =~= all.map_values(|s: SemaState| s.removed()));
    }

    /// Notes the time of an operation, which is always 0.
    pub fn otime_now(&mut self)
        ensures
            *final(self) == (SemArr { ds: SemDs { otime: 0, ..old(self).ds }, ..*old(self) }),
    {
        self.ds.otime = 0;
    }

    /// Notes the time of a change, which is always 0.
    pub fn ctime_now(&mut self)
        ensures
            *final(self) == (SemArr { ds: SemDs { ctime: 0, ..old(self).ds }, ..*old(self) }),
    {
        self.ds.ctime = 0;
    }

    /// Takes the owner and the permission bits of `new`.
    pub fn set_ds(&mut self, new: &SemDs)
        ensures
            *final(self) == (SemArr {
                ds: SemDs {
                    perm: IpcPerm {
                        uid: new.perm.uid,
                        gid: new.perm.gid,
                        mode: (new.perm.mode % 0x200) as u32,
                        ..old(self).ds.perm
                    },
                    ..old(self).ds
                },
                ..*old(self)
            }),
    {
        self.ds.perm.uid = new.perm.uid;
        self.ds.perm.gid = new.perm.gid;
        self.ds.perm.mode = new.perm.mode % 0x200;
    }

    /// A semaphore of the array.
    pub fn index(&self, i: usize) -> (s: &Sema)
        requires
            i < self@.sems.len(),
        ensures
            s@ == self@.sems[i as int],
    {
        &self.sems[i]
    }

    /// A new array under the key `k`.
    pub open spec fn made(k: u64, nsems: usize, flags: u64) -> SemArrState {
        SemArrState {
            ds: SemDs {
                perm: IpcPerm {
                    key: k as u32,
                    uid: 0,
                    gid: 0,
                    cuid: 0,
                    cgid: 0,
                    mode: (flags % 0x200) as u32,
                    seq: 0,
                    pad1: 0,
                    pad2: 0,
                },
                otime: 0,
                ctime: 0,
                nsems,
            },
            sems: Seq::new(nsems as nat, |i: int| SemaState::fresh(0)),
        }
    }

    fn make(k: u64, nsems: usize, flags: u64) -> (a: SemArr)
        requires
            k <= u32::MAX,
        ensures
            a@ == Self::made(k, nsems, flags),
    {
        let mut sems: Vec<Sema> = Vec::new();
        let mut i: usize = 0;
        while i < nsems
            invariant
                i <= nsems,
                sems@.len() == i,
                forall|j: int| 0 <= j < i ==> (#[trigger] sems@[j])@ == SemaState::fresh(0),
            decreases nsems - i,
        {
            sems.push(Sema::new(0));
            i += 1;
        }
        let a = SemArr {
            ds: SemDs {
                perm: IpcPerm {
                    key: k as u32,
                    uid: 0,
                    gid: 0,
                    cuid: 0,
                    cgid: 0,
                    mode: (flags % 0x200) as u32,
                    seq: 0,
                    pad1: 0,
                    pad2: 0,
                },
                otime: 0,
                ctime: 0,
                nsems,
            },
            sems,
        };
        assert(a@ =~= Self::made(k, nsems, flags));
        a
    }

    /// The array under `key`, or a new one. The key 0 stands for a new array under the lowest key
    /// that is not in use. With both flags for creating and for being the first, it is an error if
    /// the array exists. The caller holds what is returned.
    pub fn get_or_create(key: u32, nsems: usize, flags: u64, heap: &mut SemHeap) -> (r: Result<usize, &'static str>)
        requires
            old(heap).wf(),
            old(heap)@.live(key as u64) ==> old(heap)@.refs[old(heap)@.store[key as u64] as int] < u64::MAX,
            key == 0 ==> exists|q: u64| 1 <= q <= u32::MAX && !old(heap)@.store.dom().contains(q),
        ensures
            final(heap).wf(),
            old(heap)@.found_or_made(key, nsems, flags, r, final(heap)@),
            ({
                let h = old(heap)@;
                let n = h.arrays.len() as usize;
                if key != 0 && h.live(key as u64) {
                    if flags & 0x200 != 0 && flags & 0x400 != 0 {
                        r == Err::<usize, &'static str>("eexist") && final(heap)@ == h
                    } else {
                        let i = h.store[key as u64];
                        r == Ok::<usize, &'static str>(i) && final(heap)@ == (SemHeapState {
                            refs: h.refs.update(i as int, (h.refs[i as int] + 1) as u64),
                            ..h
                        })
                    }
                } else {
                    &&& r == Ok::<usize, &'static str>(n)
                    &&& key != 0 ==> final(heap)@ == h.with_array(key as u64, nsems, flags)
                    &&& key == 0 ==> exists|k: u64| #[trigger]
                        lowest_key(h.store, 1, k) && final(heap)@ == h.with_array(k, nsems, flags)
                }
            }),
    {
        let mut k: u64 = key as u64;
        if k == 0 {
            k = heap.store.first_free(1);
            assert(lowest_key(heap@.store, 1, k));
        } else {
            let found: Option<usize> = match heap.store.get(k) {
                Some(i) => Some(*i),
                None => None,
            };
            match found {
                Some(i) => {
                    if heap.refs[i] > 0 {
                        if (flags & 0x200) != 0 && (flags & 0x400) != 0 {
                            return Err("eexist");
                        }
                        let c: u64 = heap.refs[i];
                        heap.refs.set(i, c + 1);
                        assert(heap@.refs =~= old(heap)@.refs.update(i as int, (c + 1) as u64));
                        return Ok(i);
                    }
                },
                None => {},
            }
        }
        let n = heap.arrays.len();
        let ghost before = heap@;
        let a = SemArr::make(k, nsems, flags);
        heap.arrays.push(a);
        heap.refs.push(1);
        let _ = heap.store.insert(k, n);
        proof {
            assert(heap@.arrays =~= before.arrays.push(SemArr::made(k, nsems, flags)));
            assert(heap@ =~= before.with_array(k, nsems, flags));
        }
        Ok(n)
    }
}

impl SemHeapState {
    /// Asking for the array under `key` gives `r` and leaves `after`: the array that there is, unless
    /// it must be new, or a new one; key 0 asks for a new one under any key.
    pub open spec fn found_or_made(
        self,
        key: u32,
        nsems: usize,
        flags: u64,
        r: Result<usize, &'static str>,
        after: SemHeapState,
    ) -> bool {
        let n = self.arrays.len() as usize;
        if key != 0 && self.live(key as u64) {
            if flags & 0x200 != 0 && flags & 0x400 != 0 {
                r == Err::<usize, &'static str>("eexist") && after == self
            } else {
                let i = self.store[key as u64];
                r == Ok::<usize, &'static str>(i) && after == (SemHeapState {
                    refs: self.refs.update(i as int, (self.refs[i as int] + 1) as u64),
                    ..self
                })
            }
        } else {
            &&& r == Ok::<usize, &'static str>(n)
            &&& key != 0 ==> after == self.with_array(key as u64, nsems, flags)
            &&& key == 0 ==> exists|k: u64| #[trigger]
                lowest_key(self.store, 1, k) && after == self.with_array(k, nsems, flags)
        }
    }
}

impl SemHeapState {
    /// There is an array under `k`, and somebody holds it.
    pub open spec fn live(self, k: u64) -> bool {
        self.store.dom().contains(k) && self.refs[self.store[k] as int] > 0
    }

    /// With a new array under `k`.
    pub open spec fn with_array(self, k: u64, nsems: usize, flags: u64) -> SemHeapState {
        SemHeapState {
            arrays: self.arrays.push(SemArr::made(k, nsems, flags)),
            refs: self.refs.push(1),
            store: self.store.insert(k, self.arrays.len() as usize),
        }
    }

    /// With a unit of a semaphore given back.
    pub open spec fn given_back(self, arr: int, num: int) -> SemHeapState {
        let a = self.arrays[arr];
        SemHeapState {
            arrays: self.arrays.update(arr, SemArrState { sems: a.sems.update(num, a.sems[num].given_back()), ..a }),
            ..self
        }
    }
}

impl SemHeap {
    /// The arrays, their holders and keys, as values.
    pub open spec fn view(&self) -> SemHeapState {
        SemHeapState {
            arrays: self.arrays@.map_values(|a: SemArr| a@),
            refs: self.refs@,
            store: self.store@,
        }
    }

    /// Every array has a count, and every key stands for an array.
    pub open spec fn wf(&self) -> bool {
        &&& self.arrays@.len() == self.refs@.len()
        &&& self.store.wf()
        &&& forall|k: u64| #[trigger] self.store@.dom().contains(k) ==> self.store@[k] < self.arrays@.len()
    }

    /// No arrays.
    pub fn new() -> (h: Self)
        ensures
            h.wf(),
            h@ == (SemHeapState { arrays: Seq::empty(), refs: Seq::empty(), store: Map::empty() }),
    {
        let h = SemHeap { arrays: Vec::new(), refs: Vec::new(), store: OrdMap::new() };
        assert(h@.arrays =~= Seq::empty());
        h
    }

    /// Lets go of an array.
    pub fn release(&mut self, arr: usize)
        requires
            old(self).wf(),
            arr < old(self)@.refs.len(),
            old(self)@.refs[arr as int] > 0,
        ensures
            final(self).wf(),
            final(self)@ == (SemHeapState {
                refs: old(self)@.refs.update(arr as int, (old(self)@.refs[arr as int] - 1) as u64),
                ..old(self)@
            }),
    {
        let c: u64 = self.refs[arr];
        self.refs.set(arr, c - 1);
    }
}

/// An adjustment to be made when a process ends.
#[derive(Clone, Copy, PartialEq, Eq, Structural, Debug)]
pub struct Undo {
    /// The array.
    pub id: SemId,
    /// The semaphore.
    pub num: SemNum,
    /// The adjustment.
    pub op: SemOp,
}

/// The order of adjustments: by array, then by semaphore.
pub open spec fn undo_rank(id: SemId, num: SemNum) -> int {
    id * 0x1_0000 + num
}

/// Adjustments in ascending order, one for a semaphore.
pub open spec fn undos_ordered(s: Seq<Undo>) -> bool {
    forall|i: int, j: int|
        0 <= i < j < s.len() ==> undo_rank((#[trigger] s[i]).id, s[i].num) < undo_rank((#[trigger] s[j]).id, s[j].num)
}

/// The adjustment of a semaphore is `op`.
pub open spec fn undo_is(s: Seq<Undo>, id: SemId, num: SemNum, op: SemOp) -> bool {
    s.contains(Undo { id, num, op })
}

/// `t` is `s` with `op` noted at place `i`: taken off the adjustment that is there, or as a new one.
pub open spec fn undo_noted(s: Seq<Undo>, id: SemId, num: SemNum, op: SemOp, t: Seq<Undo>, i: int) -> bool {
    ||| 0 <= i < s.len() && s[i].id == id && s[i].num == num && t == s.update(
        i,
        Undo { id, num, op: (s[i].op - op) as i16 },
    )
    ||| 0 <= i <= s.len() && (forall|o: SemOp| !#[trigger] undo_is(s, id, num, o)) && t == s.insert(
        i,
        Undo { id, num, op: (-op) as i16 },
    )
}

/// The arrays after the first `n` adjustments have been made. Only the adjustment by one unit is.
pub open spec fn undone(h: SemHeapState, arrays: Map<u64, usize>, s: Seq<Undo>, n: int) -> SemHeapState
    decreases n,
{
    if n <= 0 {
        h
    } else {
        let before = undone(h, arrays, s, n - 1);
        let u = s[n - 1];
        if u.op == 1 && arrays.dom().contains(u.id) {
            before.given_back(arrays[u.id] as int, u.num as int)
        } else {
            before
        }
    }
}

/// The semaphores of a process.
pub struct SemCtx {
    /// The arrays that it holds.
    pub arrays: OrdMap<usize>,
    /// Adjustments to be made when it ends.
    pub undos: Vec<Undo>,
}

/// What the keys of `m` stand for, in ascending order of the keys.
pub open spec fn targets(m: Map<u64, usize>) -> Seq<usize> {
    crate::seqs::sorted_keys(m).map_values(|k: u64| m[k])
}

proof fn lemma_targets(m: OrdMap<usize>)
    requires
        m.wf(),
    ensures
        targets(m@) == m.key_seq().map_values(|k: u64| m@[k]),
        targets(m@).len() == m.key_seq().len(),
        m.key_seq().len() == m@.len(),
{
    m.lemma_key_seq();
    crate::seqs::lemma_sorted_keys(m.key_seq(), m@);
}

impl SemCtx {
    /// The arrays are a map, and the adjustments are in order.
    pub open spec fn wf(&self) -> bool {
        self.arrays.wf() && undos_ordered(self.undos@)
    }

    /// What is held is there.
    pub open spec fn within(&self, h: SemHeapState) -> bool {
        forall|k: u64| #[trigger] self.arrays@.dom().contains(k) ==> self.arrays@[k] < h.refs.len()
    }

    /// No arrays.
    pub fn new() -> (c: Self)
        ensures
            c.wf(),
            c.arrays@ == Map::<u64, usize>::empty(),
            c.undos@ == Seq::<Undo>::empty(),
    {
        SemCtx { arrays: OrdMap::new(), undos: Vec::new() }
    }

    /// Takes an array that the caller holds, under the lowest free number.
    pub fn add(&mut self, arr: usize) -> (id: SemId)
        requires
            old(self).wf(),
        ensures
            final(self).wf(),
            lowest_key(old(self).arrays@, 0, id),
            final(self).arrays@ == old(self).arrays@.insert(id, arr),
            final(self).undos == old(self).undos,
    {
        let id: u64 = self.free_id();
        let _ = self.arrays.insert(id, arr);
        id
    }

    /// Lets go of the array `id`.
    pub fn remove(&mut self, heap: &mut SemHeap, id: SemId)
        requires
            old(self).wf(),
            old(heap).wf(),
            old(self).within(old(heap)@),
            old(self).arrays@.dom().contains(id) ==> old(heap)@.refs[old(self).arrays@[id] as int] > 0,
        ensures
            final(self).wf(),
            final(heap).wf(),
            final(self).arrays@ == old(self).arrays@.remove(id),
            final(self).undos == old(self).undos,
            final(heap)@ == (if old(self).arrays@.dom().contains(id) {
                let a = old(self).arrays@[id] as int;
                SemHeapState {
                    refs: old(heap)@.refs.update(a, (old(heap)@.refs[a] - 1) as u64),
                    ..old(heap)@
                }
            } else {
                old(heap)@
            }),
    {
        match self.arrays.remove(id) {
            Some(a) => heap.release(a),
            None => {},
        }
    }

    /// The lowest free number.
    pub fn free_id(&self) -> (id: SemId)
        requires
            self.wf(),
        ensures
            lowest_key(self.arrays@, 0, id),
    {
        self.arrays.lowest_free()
    }

    /// The array `id`; the caller holds it, too.
    pub fn get(&self, heap: &mut SemHeap, id: SemId) -> (r: Option<usize>)
        requires
            self.wf(),
            old(heap).wf(),
            self.within(old(heap)@),
            self.arrays@.dom().contains(id) ==> old(heap)@.refs[self.arrays@[id] as int] < u64::MAX,
        ensures
            final(heap).wf(),
            r == (if self.arrays@.dom().contains(id) { Some(self.arrays@[id]) } else { None }),
            final(heap)@ == (match r {
                Some(a) => SemHeapState {
                    refs: old(heap)@.refs.update(a as int, (old(heap)@.refs[a as int] + 1) as u64),
                    ..old(heap)@
                },
                None => old(heap)@,
            }),
    {
        match self.arrays.get(id) {
            Some(a) => {
                let c: u64 = heap.refs[*a];
                heap.refs.set(*a, c + 1);
                Some(*a)
            },
            None => None,
        }
    }

    /// Notes that `op` has been done to a semaphore and has to be taken back at the end.
    pub fn add_undo(&mut self, id: SemId, num: SemNum, op: SemOp)
        requires
            old(self).wf(),
            forall|o: SemOp| #[trigger] undo_is(old(self).undos@, id, num, o) ==> i16::MIN <= o - op <= i16::MAX,
            -op <= i16::MAX,
        ensures
            final(self).wf(),
            final(self).arrays == old(self).arrays,
            exists|i: int| undo_noted(old(self).undos@, id, num, op, final(self).undos@, i),
    {
        let n = self.undos.len();
        let ghost s0 = self.undos@;
        let mut p: usize = 0;
        while p < n && (self.undos[p].id < id || (self.undos[p].id == id && self.undos[p].num < num))
            invariant
                n == self.undos@.len(),
                s0 == self.undos@,
                *self == *old(self),
                self.wf(),
                p <= n,
                forall|k: int| 0 <= k < p ==> undo_rank((#[trigger] s0[k]).id, s0[k].num) < undo_rank(id, num),
            decreases n - p,
        {
            proof {
                lemma_rank(self.undos@[p as int].id, self.undos@[p as int].num, id, num);
            }
            p += 1;
        }
        if p < n && self.undos[p].id == id && self.undos[p].num == num {
            let mut u = self.undos[p];
            assert(undo_is(s0, id, num, u.op)) by {
                assert(s0[p as int] == (Undo { id, num, op: u.op }));
            }
            u.op = u.op - op;
            self.undos.set(p, u);
            assert(undo_noted(s0, id, num, op, self.undos@, p as int));
        } else {
            let u = Undo { id, num, op: 0 - op };
            proof {
                if p < n {
                    lemma_rank(id, num, s0[p as int].id, s0[p as int].num);
                }
                assert forall|k: int| p <= k < n implies undo_rank(id, num) < undo_rank((#[trigger] s0[k]).id, s0[k].num) by {
                    if k > p {
                        assert(undo_rank(s0[p as int].id, s0[p as int].num) < undo_rank(s0[k].id, s0[k].num));
                    }
                }
                assert forall|o: SemOp| !#[trigger] undo_is(s0, id, num, o) by {
                    if undo_is(s0, id, num, o) {
                        let k = choose|k: int| 0 <= k < s0.len() && s0[k] == (Undo { id, num, op: o });
                        assert(undo_rank(s0[k].id, s0[k].num) == undo_rank(id, num));
                    }
                }
            }
            self.undos.insert(p, u);
            assert(undo_noted(s0, id, num, op, self.undos@, p as int));
        }
    }

    /// The semaphores of a child: the same arrays, held once more, and no adjustments.
    pub fn inherit(&self, heap: &mut SemHeap) -> (c: SemCtx)
        requires
            self.wf(),
            old(heap).wf(),
            self.within(old(heap)@),
            forall|i: int| 0 <= i < old(heap)@.refs.len() ==> (#[trigger] old(heap)@.refs[i]) + self.arrays@.len() <= u64::MAX,
        ensures
            final(heap).wf(),
            c.wf(),
            c.arrays@ == self.arrays@,
            c.undos@ == Seq::<Undo>::empty(),
            final(heap)@ == (SemHeapState {
                refs: held(old(heap)@.refs, targets(self.arrays@), targets(self.arrays@).len() as int),
                ..old(heap)@
            }),
    {
        proof {
            lemma_targets(self.arrays);
            assert forall|i: int| 0 <= i < heap.refs@.len() implies (#[trigger] heap.refs@[i]) + self.arrays.key_seq().len()
                <= u64::MAX by {
                assert(heap@.refs[i] + self.arrays@.len() <= u64::MAX);
            }
        }
        let arrays = hold_all(&self.arrays, &mut heap.refs);
        SemCtx { arrays, undos: Vec::new() }
    }

    /// Ends the use of the semaphores: makes the adjustments and lets go of the arrays.
    pub fn close(self, heap: &mut SemHeap)
        requires
            self.wf(),
            old(heap).wf(),
            self.within(old(heap)@),
            forall|k: int|
                0 <= k < self.undos@.len() && (#[trigger] self.undos@[k]).op == 1 && self.arrays@.dom().contains(self.undos@[k].id)
                    ==> self.undos@[k].num < old(heap)@.arrays[self.arrays@[self.undos@[k].id] as int].sems.len(),
            forall|i: int, j: int|
                #![trigger old(heap)@.arrays[i].sems[j]]
                0 <= i < old(heap)@.arrays.len() && 0 <= j < old(heap)@.arrays[i].sems.len() ==> old(heap)@.arrays[i].sems[j].cnt
                    + self.undos@.len() <= i64::MAX,
            forall|i: int|
                0 <= i < old(heap)@.refs.len() ==> (#[trigger] old(heap)@.refs[i]) >= times(
                    targets(self.arrays@),
                    i,
                    targets(self.arrays@).len() as int,
                ),
        ensures
            final(heap).wf(),
            ({
                let h = undone(old(heap)@, self.arrays@, self.undos@, self.undos@.len() as int);
                final(heap)@ == (SemHeapState {
                    refs: let_go(h.refs, targets(self.arrays@), targets(self.arrays@).len() as int),
                    ..h
                })
            }),
    {
        let ghost h0 = heap@;
        let ghost m = self.arrays@;
        let ghost s = self.undos@;
        let mut n: usize = 0;
        while n < self.undos.len()
            invariant
                self.wf(),
                self.within(h0),
                m == self.arrays@,
                s == self.undos@,
                n <= s.len(),
                heap.wf(),
                h0.arrays.len() == h0.refs.len(),
                heap@ == undone(h0, m, s, n as int),
                heap@.arrays.len() == h0.arrays.len(),
                heap@.refs == h0.refs,
                forall|k: int|
                    0 <= k < s.len() && (#[trigger] s[k]).op == 1 && m.dom().contains(s[k].id) ==> s[k].num < h0.arrays[m[s[k].id] as int].sems.len(),
                forall|i: int| 0 <= i < h0.arrays.len() ==> (#[trigger] heap@.arrays[i]).sems.len() == h0.arrays[i].sems.len(),
                forall|i: int, j: int|
                    #![trigger heap@.arrays[i].sems[j]]
                    0 <= i < h0.arrays.len() && 0 <= j < h0.arrays[i].sems.len() ==> heap@.arrays[i].sems[j].cnt + s.len() - n <= i64::MAX,
            decreases s.len() - n,
        {
            let u = self.undos[n];
            if u.op == 1 {
                match self.arrays.get(u.id) {
                    Some(a) => {
                        let a: usize = *a;
                        let num: usize = u.num as usize;
                        let ghost before = heap@;
                        let ghost arr0 = heap.arrays@[a as int];
                        assert(arr0@ == before.arrays[a as int]);
                        assert(s[n as int].num < h0.arrays[m[s[n as int].id] as int].sems.len());
                        assert(before.arrays[a as int].sems.len() == h0.arrays[a as int].sems.len());
                        assert(before.arrays[a as int].sems[num as int].cnt < i64::MAX);
                        assert(arr0.sems@[num as int]@ == before.arrays[a as int].sems[num as int]);
                        heap.arrays[a].sems[num].release();
                        proof {
                            let arr1 = heap.arrays@[a as int];
                            assert(arr1@.sems =~= arr0@.sems.update(num as int, arr0@.sems[num as int].given_back()));
                            assert(heap@.arrays =~= before.given_back(a as int, num as int).arrays);
                            assert(heap@ =~= before.given_back(a as int, num as int));
                            assert forall|i: int, j: int|
                                #![trigger heap@.arrays[i].sems[j]]
                                0 <= i < h0.arrays.len() && 0 <= j < h0.arrays[i].sems.len() implies heap@.arrays[i].sems[j].cnt
                                + s.len() - (n + 1) <= i64::MAX by {
                                assert(before.arrays[i].sems[j].cnt + s.len() - n <= i64::MAX);
                            }
                        }
                    },
                    None => {},
                }
            }
            n += 1;
        }
        drop_all_refs(&self.arrays, &mut heap.refs);
        assert(heap@.arrays == undone(h0, m, s, s.len() as int).arrays);
    }
}

proof fn lemma_rank(a: SemId, m: SemNum, b: SemId, n: SemNum)
    ensures
        undo_rank(a, m) < undo_rank(b, n) <==> a < b || (a == b && m < n),
        undo_rank(a, m) == undo_rank(b, n) <==> a == b && m == n,
{
}

/// A copy of `m`; each of its targets is held once more.
fn hold_all(m: &OrdMap<usize>, refs: &mut Vec<u64>) -> (r: OrdMap<usize>)
    requires
        m.wf(),
        forall|k: u64| #[trigger] m@.dom().contains(k) ==> m@[k] < old(refs)@.len(),
        forall|i: int| 0 <= i < old(refs)@.len() ==> (#[trigger] old(refs)@[i]) + m.key_seq().len() <= u64::MAX,
    ensures
        r.wf(),
        r@ == m@,
        final(refs)@ == held(old(refs)@, targets(m@), targets(m@).len() as int),
        final(refs)@.len() == old(refs)@.len(),
{
    let mut r: OrdMap<usize> = OrdMap::new();
    let n = m.len();
    let ghost t = targets(m@);
    let ghost refs0 = refs@;
    let mut i: usize = 0;
    proof {
        lemma_targets(*m);
    }
    proof {
        m.lemma_key_seq();
    }
    while i < n
        invariant
            m.wf(),
            r.wf(),
            n == m.key_seq().len(),
            i <= n,
            t == targets(m@),
            t == m.key_seq().map_values(|k: u64| m@[k]),
            refs0 == old(refs)@,
            forall|k: u64| #[trigger] m@.dom().contains(k) ==> m@[k] < refs0.len(),
            forall|i: int| 0 <= i < refs0.len() ==> (#[trigger] refs0[i]) + n <= u64::MAX,
            refs@ == held(refs0, t, i as int),
            refs@.len() == refs0.len(),
            forall|k: u64| #[trigger] r@.dom().contains(k) <==> m.key_seq().take(i as int).contains(k),
            forall|k: u64| #[trigger] r@.dom().contains(k) ==> m@.dom().contains(k) && r@[k] == m@[k],
        decreases n - i,
    {
        let k: u64 = m.key_at(i);
        let a: usize = *m.val_at(i);
        let ghost before = m.key_seq().take(i as int);
        proof {
            assert forall|q: int| 0 <= q < i implies (#[trigger] t[q]) < refs0.len() by {
                m.lemma_key_seq();
                assert(m@.dom().contains(m.key_seq()[q]));
            }
            lemma_held(refs0, t, i as int);
            assert(refs0[a as int] + n <= u64::MAX);
        }
        let _ = r.insert(k, a);
        let c: u64 = refs[a];
        refs.set(a, c + 1);
        i += 1;
        proof {
            let now = m.key_seq().take(i as int);
            assert(now =~= before.push(k));
            assert forall|q: u64| #[trigger] r@.dom().contains(q) <==> now.contains(q) by {
                if before.contains(q) {
                    let j = choose|j: int| 0 <= j < before.len() && before[j] == q;
                    assert(now[j] == q);
                }
                if q == k {
                    assert(now[before.len() as int] == q);
                }
                if now.contains(q) && q != k {
                    let j = choose|j: int| 0 <= j < now.len() && now[j] == q;
                    assert(before[j] == q);
                }
            }
        }
    }
    proof {
        assert(m.key_seq().take(n as int) =~= m.key_seq());
        m.lemma_key_seq();
        assert(r@ =~= m@);
    }
    r
}

/// Lets go of every target of `m`.
fn drop_all_refs(m: &OrdMap<usize>, refs: &mut Vec<u64>)
    requires
        m.wf(),
        forall|k: u64| #[trigger] m@.dom().contains(k) ==> m@[k] < old(refs)@.len(),
        forall|i: int|
            0 <= i < old(refs)@.len() ==> (#[trigger] old(refs)@[i]) >= times(targets(m@), i, targets(m@).len() as int),
    ensures
        final(refs)@ == let_go(old(refs)@, targets(m@), targets(m@).len() as int),
        final(refs)@.len() == old(refs)@.len(),
{
    let n = m.len();
    let ghost t = targets(m@);
    let ghost refs0 = refs@;
    let mut i: usize = 0;
    proof {
        lemma_targets(*m);
    }
    while i < n
        invariant
            m.wf(),
            n == m.key_seq().len(),
            n == t.len(),
            i <= n,
            t == targets(m@),
            t == m.key_seq().map_values(|k: u64| m@[k]),
            refs0 == old(refs)@,
            forall|k: u64| #[trigger] m@.dom().contains(k) ==> m@[k] < refs0.len(),
            forall|i: int| 0 <= i < refs0.len() ==> (#[trigger] refs0[i]) >= times(t, i, n as int),
            refs@ == let_go(refs0, t, i as int),
            refs@.len() == refs0.len(),
        decreases n - i,
    {
        let a: usize = *m.val_at(i);
        proof {
            m.lemma_key_seq();
            assert(m@.dom().contains(m.key_seq()[i as int]));
            assert forall|q: int| 0 <= q < i implies (#[trigger] t[q]) < refs0.len() by {
                assert(m@.dom().contains(m.key_seq()[q]));
            }
            assert forall|j: int| 0 <= j < refs0.len() implies (#[trigger] refs0[j]) >= times(t, j, i as int) by {
                lemma_times(t, j, i as int, n as int);
            }
            lemma_let_go(refs0, t, i as int);
            lemma_times(t, a as int, i + 1, n as int);
            assert(t[i as int] == a);
            assert(times(t, a as int, i + 1) == times(t, a as int, i as int) + 1);
        }
        let c: u64 = refs[a];
        refs.set(a, c - 1);
        i += 1;
    }
}

// ---------------------------------------------------------------------------------------------
// Shared memory
// ---------------------------------------------------------------------------------------------

/// A shared memory as a process has it.
#[derive(Clone, Copy, PartialEq, Eq, Structural, Debug)]
pub struct ShmTag {
    /// Where it is mapped; 0 for nowhere.
    pub addr: u64,
    /// The pages.
    pub pages: usize,
}

impl ShmTag {
    /// Notes where it is mapped.
    pub fn set_addr(&mut self, a: u64)
        ensures
            *final(self) == (ShmTag { addr: a, ..*old(self) }),
    {
        self.addr = a;
    }
}

/// The shared memories, how many hold each, and the keys under which they can be found.
pub struct ShmHeap {
    /// The pages of each.
    pub pages: Vec<Vec<u64>>,
    /// How many hold each.
    pub refs: Vec<u64>,
    /// The keys.
    pub store: OrdMap<usize>,
}

/// The shared memories, their holders and keys, as values.
#[verifier::ext_equal]
pub struct ShmHeapState {
    /// The pages of each.
    pub pages: Seq<Seq<u64>>,
    /// How many hold each.
    pub refs: Seq<u64>,
    /// The keys.
    pub store: Map<u64, usize>,
}

impl ShmHeapState {
    /// The memory under `key`, which is made where there is none, and what is shared afterwards.
    pub open spec fn found_or_made(self, key: u64, npages: usize) -> (int, ShmHeapState) {
        if self.live(key) {
            let i = self.store[key];
            (
                i as int,
                ShmHeapState { refs: self.refs.update(i as int, (self.refs[i as int] + 1) as u64), ..self },
            )
        } else {
            (
                self.pages.len() as int,
                ShmHeapState {
                    pages: self.pages.push(Seq::new(npages as nat, |i: int| 0u64)),
                    refs: self.refs.push(1),
                    store: self.store.insert(key, self.pages.len() as usize),
                },
            )
        }
    }
}

impl ShmHeapState {
    /// There is a shared memory under `k`, and somebody holds it.
    pub open spec fn live(self, k: u64) -> bool {
        self.store.dom().contains(k) && self.refs[self.store[k] as int] > 0
    }
}

impl ShmHeap {
    /// The shared memories, their holders and keys, as values.
    pub open spec fn view(&self) -> ShmHeapState {
        ShmHeapState { pages: self.pages@.map_values(|p: Vec<u64>| p@), refs: self.refs@, store: self.store@ }
    }

    /// Every shared memory has a count, and every key stands for one.
    pub open spec fn wf(&self) -> bool {
        &&& self.pages@.len() == self.refs@.len()
        &&& self.store.wf()
        &&& forall|k: u64| #[trigger] self.store@.dom().contains(k) ==> self.store@[k] < self.pages@.len()
    }

    /// No shared memories.
    pub fn new() -> (h: Self)
        ensures
            h.wf(),
            h@ == (ShmHeapState { pages: Seq::empty(), refs: Seq::empty(), store: Map::empty() }),
    {
        let h = ShmHeap { pages: Vec::new(), refs: Vec::new(), store: OrdMap::new() };
        assert(h@.pages =~= Seq::empty());
        h
    }

    /// Lets go of a shared memory.
    pub fn release(&mut self, i: usize)
        requires
            old(self).wf(),
            i < old(self)@.refs.len(),
            old(self)@.refs[i as int] > 0,
        ensures
            final(self).wf(),
            final(self)@ == (ShmHeapState {
                refs: old(self)@.refs.update(i as int, (old(self)@.refs[i as int] - 1) as u64),
                ..old(self)@
            }),
    {
        let c: u64 = self.refs[i];
        self.refs.set(i, c - 1);
    }
}

/// The shared memory under `key`, or a new one of `npages` pages. The caller holds it.
pub fn shm_get_or_create(key: u64, npages: usize, heap: &mut ShmHeap) -> (r: usize)
    requires
        old(heap).wf(),
        old(heap)@.live(key) ==> old(heap)@.refs[old(heap)@.store[key] as int] < u64::MAX,
    ensures
        final(heap).wf(),
        (r as int, final(heap)@) == old(heap)@.found_or_made(key, npages),
        ({
            let h = old(heap)@;
            if h.live(key) {
                r == h.store[key] && final(heap)@ == (ShmHeapState {
                    refs: h.refs.update(r as int, (h.refs[r as int] + 1) as u64),
                    ..h
                })
            } else {
                r == h.pages.len() && final(heap)@ == (ShmHeapState {
                    pages: h.pages.push(Seq::new(npages as nat, |i: int| 0u64)),
                    refs: h.refs.push(1),
                    store: h.store.insert(key, r),
                })
            }
        }),
{
    let found: Option<usize> = match heap.store.get(key) {
        Some(i) => Some(*i),
        None => None,
    };
    match found {
        Some(i) => {
            if heap.refs[i] > 0 {
                let c: u64 = heap.refs[i];
                heap.refs.set(i, c + 1);
                return i;
            }
        },
        None => {},
    }
    let n = heap.pages.len();
    let ghost before = heap@;
    let fresh: Vec<u64> = vec![0u64; npages];
    let ghost zeros = fresh@;
    heap.pages.push(fresh);
    heap.refs.push(1);
    let _ = heap.store.insert(key, n);
    proof {
        assert(zeros =~= Seq::new(npages as nat, |i: int| 0u64));
        assert(heap@.pages =~= before.pages.push(Seq::new(npages as nat, |i: int| 0u64)));
    }
    n
}

/// The shared memories of a process.
pub struct ShmCtx {
    /// What it has, by number.
    pub ids: OrdMap<ShmTag>,
}

/// What the tags of `m` stand for, in ascending order of their numbers.
pub open spec fn shm_targets(m: Map<u64, ShmTag>) -> Seq<usize> {
    crate::seqs::sorted_keys(m).map_values(|k: u64| m[k].pages)
}

impl ShmCtx {
    /// What it has is a map.
    pub open spec fn wf(&self) -> bool {
        self.ids.wf()
    }

    /// What is held is there.
    pub open spec fn within(&self, h: ShmHeapState) -> bool {
        forall|k: u64| #[trigger] self.ids@.dom().contains(k) ==> self.ids@[k].pages < h.refs.len()
    }

    /// No shared memories.
    pub fn new() -> (c: Self)
        ensures
            c.wf(),
            c.ids@ == Map::<u64, ShmTag>::empty(),
    {
        ShmCtx { ids: OrdMap::new() }
    }

    /// Takes a shared memory that the caller holds, under the lowest free number.
    pub fn add(&mut self, g: usize) -> (id: ShmId)
        requires
            old(self).wf(),
        ensures
            final(self).wf(),
            lowest_key(old(self).ids@, 0, id),
            final(self).ids@ == old(self).ids@.insert(id, ShmTag { addr: 0, pages: g }),
    {
        let id: u64 = self.ids.lowest_free();
        let _ = self.ids.insert(id, ShmTag { addr: 0, pages: g });
        id
    }

    /// The shared memory `id`; the caller holds it, too.
    pub fn get(&self, heap: &mut ShmHeap, id: ShmId) -> (r: Option<ShmTag>)
        requires
            self.wf(),
            old(heap).wf(),
            self.within(old(heap)@),
            self.ids@.dom().contains(id) ==> old(heap)@.refs[self.ids@[id].pages as int] < u64::MAX,
        ensures
            final(heap).wf(),
            r == (if self.ids@.dom().contains(id) { Some(self.ids@[id]) } else { None }),
            final(heap)@ == (match r {
                Some(t) => ShmHeapState {
                    refs: old(heap)@.refs.update(t.pages as int, (old(heap)@.refs[t.pages as int] + 1) as u64),
                    ..old(heap)@
                },
                None => old(heap)@,
            }),
            r == found_at(self.ids@, id),
    {
        match self.ids.get(id) {
            Some(t) => {
                let c: u64 = heap.refs[t.pages];
                heap.refs.set(t.pages, c + 1);
                Some(*t)
            },
            None => None,
        }
    }

    /// Puts a shared memory that the caller holds under `id`, and lets go of what was there.
    pub fn set(&mut self, heap: &mut ShmHeap, id: ShmId, tag: ShmTag)
        requires
            old(self).wf(),
            old(heap).wf(),
            old(self).within(old(heap)@),
            old(self).ids@.dom().contains(id) ==> old(heap)@.refs[old(self).ids@[id].pages as int] > 0,
        ensures
            final(self).wf(),
            final(heap).wf(),
            final(self).ids@ == old(self).ids@.insert(id, tag),
            final(heap)@ == (if old(self).ids@.dom().contains(id) {
                let g = old(self).ids@[id].pages as int;
                ShmHeapState {
                    refs: old(heap)@.refs.update(g, (old(heap)@.refs[g] - 1) as u64),
                    ..old(heap)@
                }
            } else {
                old(heap)@
            }),
            final(self).ids@ == with_memory(old(self).ids@, id, tag),
    {
        match self.ids.insert(id, tag) {
            Some(t) => heap.release(t.pages),
            None => {},
        }
    }

    /// The lowest number of a shared memory that is mapped at `addr`.
    pub fn get_id_by_addr(&self, addr: u64) -> (r: Option<ShmId>)
        requires
            self.wf(),
        ensures
            r is None ==> forall|k: u64| #[trigger] self.ids@.dom().contains(k) ==> self.ids@[k].addr != addr,
            r matches Some(id) ==> self.ids@.dom().contains(id) && self.ids@[id].addr == addr && forall|k: u64|
                k < id && #[trigger] self.ids@.dom().contains(k) ==> self.ids@[k].addr != addr,
    {
        let n = self.ids.len();
        let mut i: usize = 0;
        proof {
            self.ids.lemma_key_seq();
        }
        while i < n
            invariant
                self.wf(),
                n == self.ids.key_seq().len(),
                i <= n,
                forall|k: int| 0 <= k < i ==> self.ids@[#[trigger] self.ids.key_seq()[k]].addr != addr,
            decreases n - i,
        {
            if self.ids.val_at(i).addr == addr {
                let id: u64 = self.ids.key_at(i);
                proof {
                    self.ids.lemma_key_seq();
                    assert forall|k: u64| k < id && #[trigger] self.ids@.dom().contains(k) implies self.ids@[k].addr != addr by {
                        assert(self.ids.key_seq().contains(k));
                        let j = choose|j: int| 0 <= j < n && self.ids.key_seq()[j] == k;
                        if j > i {
                            assert(self.ids.key_seq()[i as int] < self.ids.key_seq()[j]);
                        }
                    }
                }
                return Some(id);
            }
            i += 1;
        }
        proof {
            self.ids.lemma_key_seq();
            assert forall|k: u64| #[trigger] self.ids@.dom().contains(k) implies self.ids@[k].addr != addr by {
                assert(self.ids.key_seq().contains(k));
                let j = choose|j: int| 0 <= j < n && self.ids.key_seq()[j] == k;
                assert(self.ids@[self.ids.key_seq()[j]].addr != addr);
            }
        }
        None
    }

    /// Lets go of the shared memory `id`.
    pub fn pop(&mut self, heap: &mut ShmHeap, id: ShmId)
        requires
            old(self).wf(),
            old(heap).wf(),
            old(self).within(old(heap)@),
            old(self).ids@.dom().contains(id) ==> old(heap)@.refs[old(self).ids@[id].pages as int] > 0,
        ensures
            final(self).wf(),
            final(heap).wf(),
            final(self).ids@ == old(self).ids@.remove(id),
            final(heap)@ == (if old(self).ids@.dom().contains(id) {
                let g = old(self).ids@[id].pages as int;
                ShmHeapState {
                    refs: old(heap)@.refs.update(g, (old(heap)@.refs[g] - 1) as u64),
                    ..old(heap)@
                }
            } else {
                old(heap)@
            }),
            final(self).ids@ == without_memory(old(self).ids@, id),
    {
        match self.ids.remove(id) {
            Some(t) => heap.release(t.pages),
            None => {},
        }
    }

    /// The shared memories of a child: the same, held once more.
    pub fn inherit(&self, heap: &mut ShmHeap) -> (c: ShmCtx)
        requires
            self.wf(),
            old(heap).wf(),
            self.within(old(heap)@),
            forall|i: int| 0 <= i < old(heap)@.refs.len() ==> (#[trigger] old(heap)@.refs[i]) + self.ids@.len() <= u64::MAX,
        ensures
            final(heap).wf(),
            c.wf(),
            c.ids@ == self.ids@,
            final(heap)@ == (ShmHeapState {
                refs: held(old(heap)@.refs, shm_targets(self.ids@), shm_targets(self.ids@).len() as int),
                ..old(heap)@
            }),
    {
        let mut r: OrdMap<ShmTag> = OrdMap::new();
        let m = &self.ids;
        let n = m.len();
        let ghost t = shm_targets(m@);
        let ghost h0 = heap@;
        let mut i: usize = 0;
        proof {
            m.lemma_key_seq();
            crate::seqs::lemma_sorted_keys(m.key_seq(), m@);
        }
        while i < n
            invariant
                m.wf(),
                *m == self.ids,
                self.within(h0),
                heap.wf(),
                r.wf(),
                n == m.key_seq().len(),
                i <= n,
                t == shm_targets(m@),
                t == m.key_seq().map_values(|k: u64| m@[k].pages),
                heap@ == (ShmHeapState { refs: held(h0.refs, t, i as int), ..h0 }),
                heap@.refs.len() == h0.refs.len(),
                forall|i: int| 0 <= i < h0.refs.len() ==> (#[trigger] h0.refs[i]) + n <= u64::MAX,
                forall|k: u64| #[trigger] r@.dom().contains(k) <==> m.key_seq().take(i as int).contains(k),
                forall|k: u64| #[trigger] r@.dom().contains(k) ==> m@.dom().contains(k) && r@[k] == m@[k],
            decreases n - i,
        {
            let k: u64 = m.key_at(i);
            let a: ShmTag = *m.val_at(i);
            let ghost before = m.key_seq().take(i as int);
            proof {
                m.lemma_key_seq();
                assert forall|q: int| 0 <= q < i implies (#[trigger] t[q]) < h0.refs.len() by {
                    assert(m@.dom().contains(m.key_seq()[q]));
                }
                lemma_held(h0.refs, t, i as int);
                assert(h0.refs[a.pages as int] + n <= u64::MAX);
                assert(t[i as int] == a.pages);
            }
            let _ = r.insert(k, a);
            let c: u64 = heap.refs[a.pages];
            heap.refs.set(a.pages, c + 1);
            i += 1;
            proof {
                assert(heap@.refs =~= held(h0.refs, t, i as int));
                let now = m.key_seq().take(i as int);
                assert(now =~= before.push(k));
                assert forall|q: u64| #[trigger] r@.dom().contains(q) <==> now.contains(q) by {
                    if before.contains(q) {
                        let j = choose|j: int| 0 <= j < before.len() && before[j] == q;
                        assert(now[j] == q);
                    }
                    if q == k {
                        assert(now[before.len() as int] == q);
                    }
                    if now.contains(q) && q != k {
                        let j = choose|j: int| 0 <= j < now.len() && now[j] == q;
                        assert(before[j] == q);
                    }
                }
            }
        }
        proof {
            assert(m.key_seq().take(n as int) =~= m.key_seq());
            m.lemma_key_seq();
            assert(r@ =~= m@);
        }
        ShmCtx { ids: r }
    }
}

/// A key finds the same array while somebody holds it; once nobody does, it stands for a new one.
pub proof fn law_key_lives_while_held(h: SemHeapState, k: u64, nsems: usize, flags: u64)
    requires
        h.arrays.len() == h.refs.len(),
        h.arrays.len() < usize::MAX,
    ensures
        h.with_array(k, nsems, flags).live(k),
        h.with_array(k, nsems, flags).store[k] == h.arrays.len(),
        !(SemHeapState {
            refs: h.with_array(k, nsems, flags).refs.update(h.arrays.len() as int, 0),
            ..h.with_array(k, nsems, flags)
        }).live(k),
{
}

/// What a child inherits and lets go of again leaves the counts of holders as they were.
pub proof fn law_inherit_then_let_go(refs: Seq<u64>, t: Seq<usize>)
    requires
        forall|k: int| 0 <= k < t.len() ==> (#[trigger] t[k]) < refs.len(),
        forall|i: int| 0 <= i < refs.len() ==> (#[trigger] refs[i]) + t.len() <= u64::MAX,
    ensures
        let_go(held(refs, t, t.len() as int), t, t.len() as int) == refs,
{
    let n = t.len() as int;
    lemma_held(refs, t, n);
    let h = held(refs, t, n);
    lemma_let_go(h, t, n);
    assert(let_go(h, t, n) =~= refs);
}

/// A process that takes a unit, notes that, and ends without giving it back leaves the semaphore
/// with as many units as before.
pub proof fn law_undo_restores(h: SemHeapState, arrays: Map<u64, usize>, id: SemId, num: SemNum, units: int)
    requires
        arrays.dom().contains(id),
        arrays[id] < h.arrays.len(),
        num < h.arrays[arrays[id] as int].sems.len(),
        h.arrays[arrays[id] as int].sems[num as int].cnt == units - 1,
        units <= i64::MAX,
    ensures
        undo_noted(Seq::empty(), id, num, (-1int) as i16, seq![Undo { id, num, op: 1 }], 0),
        undone(h, arrays, seq![Undo { id, num, op: 1 }], 1).arrays[arrays[id] as int].sems[num as int].cnt == units,
{
    reveal_with_fuel(undone, 2);
    assert(Seq::<Undo>::empty().insert(0, Undo { id, num, op: 1 }) =~= seq![Undo { id, num, op: 1 }]);
}

/// Everything that is inherited counts one holder more for each time it occurs.
pub proof fn law_each_holder_counts(refs: Seq<u64>, t: Seq<usize>, n: int, i: int)
    requires
        0 <= n <= t.len(),
        forall|k: int| 0 <= k < t.len() ==> (#[trigger] t[k]) < refs.len(),
        0 <= i < refs.len(),
        refs[i] + n <= u64::MAX,
    ensures
        held(refs, t, n).len() == refs.len(),
        held(refs, t, n)[i] == refs[i] + times(t, i, n),
        0 <= times(t, i, n) <= n,
    decreases n,
{
    if n > 0 {
        law_each_holder_counts(refs, t, n - 1, i);
    }
}

/// Everybody who asks for a key gets the same array as long as somebody holds it, and counts as one
/// more holder; who wants it to be new is refused. An array that is made has as many semaphores as
/// were asked for, all without units.
pub proof fn law_key_names_one_array(
    h: SemHeapState,
    key: u32,
    nsems: usize,
    flags: u64,
    r1: Result<usize, &'static str>,
    h1: SemHeapState,
    n2: usize,
    f2: u64,
    r2: Result<usize, &'static str>,
    h2: SemHeapState,
)
    requires
        key != 0,
        h.arrays.len() == h.refs.len(),
        h.arrays.len() < usize::MAX,
        h.live(key as u64) ==> h.store[key as u64] < h.arrays.len() && h.refs[h.store[key as u64] as int] < u64::MAX - 1,
        h.found_or_made(key, nsems, flags, r1, h1),
        r1 is Ok,
        h1.found_or_made(key, n2, f2, r2, h2),
    ensures
        ({
            let i = r1->Ok_0 as int;
            let exclusive = f2 & 0x200 != 0 && f2 & 0x400 != 0;
            &&& h1.live(key as u64)
            &&& !exclusive ==> r2 == r1 && h2.arrays == h1.arrays && h2.refs[i] == h1.refs[i] + 1
            &&& exclusive ==> r2 == Err::<usize, &'static str>("eexist") && h2 == h1
            &&& !h.live(key as u64) ==> {
                &&& h1.arrays.len() == h.arrays.len() + 1
                &&& h1.arrays[i].sems.len() == nsems
                &&& forall|j: int| 0 <= j < nsems ==> (#[trigger] h1.arrays[i].sems[j]).cnt == 0 && !h1.arrays[i].sems[j].rm
                &&& h1.refs[i] == 1
            }
        }),
{
}

/// Everybody who asks for a key gets the same memory as long as somebody holds it; memory that is
/// made has as many pages as were asked for.
pub proof fn law_key_names_one_memory(h: ShmHeapState, key: u64, npages: usize, other: usize)
    requires
        h.pages.len() == h.refs.len(),
        h.pages.len() < usize::MAX,
        h.live(key) ==> h.store[key] < h.pages.len() && h.refs[h.store[key] as int] < u64::MAX - 1,
    ensures
        ({
            let (i, h1) = h.found_or_made(key, npages);
            let (j, h2) = h1.found_or_made(key, other);
            &&& h1.live(key) && j == i
            &&& h2.pages == h1.pages && h2.refs[i] == h1.refs[i] + 1
            &&& !h.live(key) ==> h1.pages[i].len() == npages && h1.refs[i] == 1
            &&& h.live(key) ==> h1.pages == h.pages && h1.refs[i] == h.refs[i] + 1
        }),
{
}

/// The shared memory that a process knows under a number.
pub open spec fn found_at(ids: Map<u64, ShmTag>, id: ShmId) -> Option<ShmTag> {
    if ids.dom().contains(id) {
        Some(ids[id])
    } else {
        None
    }
}

/// What a process knows when it knows shared memory under a number.
pub open spec fn with_memory(ids: Map<u64, ShmTag>, id: ShmId, tag: ShmTag) -> Map<u64, ShmTag> {
    ids.insert(id, tag)
}

/// What a process knows when it knows none under a number.
pub open spec fn without_memory(ids: Map<u64, ShmTag>, id: ShmId) -> Map<u64, ShmTag> {
    ids.remove(id)
}

/// Shared memory is found under the number under which it was put, until it is let go, and nothing is
/// changed of what stands under other numbers.
pub proof fn law_memory_is_known_by_number(ids: Map<u64, ShmTag>, id: ShmId, tag: ShmTag, other: ShmId)
    requires
        other != id,
    ensures
        found_at(with_memory(ids, id, tag), id) == Some(tag),
        found_at(without_memory(ids, id), id) is None,
        found_at(with_memory(ids, id, tag), other) == found_at(ids, other),
        found_at(without_memory(ids, id), other) == found_at(ids, other),
{
}

} // verus!
