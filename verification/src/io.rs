//! Block devices: the request queue with its elevator, and a disk with injectable faults.

use vstd::prelude::*;
use crate::consts::IOQUEUE_DEPTH;
use crate::ordmap::OrdMap;

verus! {

/// One request for the disk.
#[derive(Clone, Copy, PartialEq, Eq, Structural)]
pub struct IoRequest {
    /// Block to be read or written.
    pub block: u64,
    /// `true` for a write.
    pub write: bool,
    /// Priority; a smaller number is more urgent.
    pub priority: u8,
    /// Tick at which the request came in.
    pub submitted_tick: u64,
}

/// Requests waiting for the disk, served by the elevator (SCAN) rule.
pub struct IoQueue {
    /// Waiting requests in the order in which they came.
    pub pending: Vec<IoRequest>,
    /// Block over which the head stands.
    pub head_pos: u64,
    /// Whether the head moves towards higher blocks.
    pub direction_up: bool,
    /// Requests handed out so far.
    pub dispatched: u64,
    /// Requests merged away so far.
    pub merged: u64,
}

/// `block` lies ahead of a head over `head` that moves up, or down. What is under the head counts.
pub open spec fn ahead(head: u64, up: bool, block: u64) -> bool {
    if up {
        block >= head
    } else {
        block <= head
    }
}

/// Blocks between the head and `block`.
pub open spec fn seek_distance(head: u64, block: u64) -> int {
    if block >= head {
        block - head
    } else {
        head - block
    }
}

/// The direction in which the elevator goes on with `q`: it turns round where nothing lies ahead.
pub open spec fn heading(head: u64, up: bool, q: Seq<IoRequest>) -> bool {
    if exists|i: int| 0 <= i < q.len() && ahead(head, up, (#[trigger] q[i]).block) {
        up
    } else {
        !up
    }
}

/// `i` is the first of the nearest requests that lie ahead.
pub open spec fn nearest(head: u64, up: bool, q: Seq<IoRequest>, i: int) -> bool {
    &&& 0 <= i < q.len()
    &&& ahead(head, up, q[i].block)
    &&& forall|j: int|
        0 <= j < q.len() && ahead(head, up, (#[trigger] q[j]).block) ==> seek_distance(head, q[i].block) <= seek_distance(
            head,
            q[j].block,
        )
    &&& forall|j: int|
        0 <= j < i && ahead(head, up, (#[trigger] q[j]).block) ==> seek_distance(head, q[i].block) < seek_distance(
            head,
            q[j].block,
        )
}

/// `b` continues `a`: the next block, in the same direction of transfer.
pub open spec fn continues(a: IoRequest, b: IoRequest) -> bool {
    a.block + 1 == b.block && a.write == b.write
}

/// What is left of `q` once each request that continues the one kept before it is dropped.
pub open spec fn merged_queue(q: Seq<IoRequest>) -> Seq<IoRequest>
    decreases q.len(),
{
    if q.len() == 0 {
        q
    } else {
        let kept = merged_queue(q.drop_last());
        if kept.len() > 0 && continues(kept.last(), q.last()) {
            kept
        } else {
            kept.push(q.last())
        }
    }
}

/// The requests that a batch stands for.
pub open spec fn batch_requests(batch: Seq<(u64, bool, u8)>, now: u64) -> Seq<IoRequest> {
    batch.map_values(
        |r: (u64, bool, u8)| (IoRequest { block: r.0, write: r.1, priority: r.2, submitted_tick: now }),
    )
}

impl IoQueue {
    /// An empty queue with the head over block 0, moving up.
    pub fn new() -> (q: Self)
        ensures
            q.pending@ == Seq::<IoRequest>::empty(),
            q.head_pos == 0,
            q.direction_up,
            q.dispatched == 0,
            q.merged == 0,
    {
        IoQueue { pending: Vec::new(), head_pos: 0, direction_up: true, dispatched: 0, merged: 0 }
    }

    /// Appends one request, stamped with the tick `now`.
    pub fn submit(&mut self, blk: u64, write: bool, priority: u8, now: u64)
        ensures
            final(self).pending@ == old(self).pending@.push(
                IoRequest { block: blk, write, priority, submitted_tick: now },
            ),
            final(self).head_pos == old(self).head_pos,
            final(self).direction_up == old(self).direction_up,
            final(self).dispatched == old(self).dispatched,
            final(self).merged == old(self).merged,
    {
        self.pending.push(IoRequest { block: blk, write, priority, submitted_tick: now });
    }

    /// Appends a batch and returns its size; a queue grown past the depth limit is merged.
    pub fn submit_batch(&mut self, requests: &[(u64, bool, u8)], now: u64) -> (count: usize)
        ensures
            count == requests@.len(),
            ({
                let all = old(self).pending@ + batch_requests(requests@, now);
                if all.len() > IOQUEUE_DEPTH {
                    &&& final(self).pending@ == merged_queue(all)
                    &&& final(self).merged == old(self).merged.wrapping_add((all.len() - merged_queue(all).len()) as u64)
                } else {
                    &&& final(self).pending@ == all
                    &&& final(self).merged == old(self).merged
                }
            }),
            final(self).head_pos == old(self).head_pos,
            final(self).direction_up == old(self).direction_up,
            final(self).dispatched == old(self).dispatched,
    {
        let mut count: usize = 0;
        while count < requests.len()
            invariant
                count <= requests@.len(),
                self.pending@ == old(self).pending@ + batch_requests(requests@.take(count as int), now),
                self.head_pos == old(self).head_pos,
                self.direction_up == old(self).direction_up,
                self.dispatched == old(self).dispatched,
                self.merged == old(self).merged,
            decreases requests@.len() - count,
        {
            let (blk, wr, prio) = requests[count];
            self.pending.push(IoRequest { block: blk, write: wr, priority: prio, submitted_tick: now });
            count += 1;
            assert(batch_requests(requests@.take(count as int), now) =~= batch_requests(requests@.take(count - 1), now).push(
                self.pending@.last(),
            ));
        }
        assert(requests@.take(count as int) =~= requests@);
        if self.pending.len() > IOQUEUE_DEPTH {
            self.merge_adjacent();
        }
        count
    }

    /// The direction in which the elevator goes on from `head`.
    fn heading_from(&self, head: u64, up: bool) -> (d: bool)
        ensures
            d == heading(head, up, self.pending@),
    {
        let mut i: usize = 0;
        while i < self.pending.len()
            invariant
                i <= self.pending@.len(),
                forall|j: int| 0 <= j < i ==> !ahead(head, up, (#[trigger] self.pending@[j]).block),
            decreases self.pending@.len() - i,
        {
            let block: u64 = self.pending[i].block;
            if (up && block >= head) || (!up && block <= head) {
                assert(ahead(head, up, self.pending@[i as int].block));
                return up;
            }
            i += 1;
        }
        !up
    }

    /// Takes out the request that the elevator reaches next: the nearest one ahead of the head. Where
    /// nothing lies ahead, before or after, the elevator turns round.
    pub fn dispatch(&mut self) -> (r: Option<(u64, bool)>)
        ensures
            r is None <==> old(self).pending@.len() == 0,
            r is None ==> *final(self) == *old(self),
            r matches Some(hit) ==> {
                let d = heading(old(self).head_pos, old(self).direction_up, old(self).pending@);
                &&& exists|i: int|
                    {
                        &&& #[trigger] nearest(old(self).head_pos, d, old(self).pending@, i)
                        &&& hit == (old(self).pending@[i].block, old(self).pending@[i].write)
                        &&& final(self).pending@ == old(self).pending@.remove(i)
                    }
                &&& final(self).head_pos == hit.0
                &&& final(self).direction_up == heading(hit.0, d, final(self).pending@)
                &&& final(self).dispatched == old(self).dispatched.wrapping_add(1)
                &&& final(self).merged == old(self).merged
            },
    {
        if self.pending.len() == 0 {
            return None;
        }
        let head: u64 = self.head_pos;
        let d = self.heading_from(head, self.direction_up);
        let ghost q = self.pending@;
        let mut best: Option<usize> = None;
        let mut low: u64 = 0;
        let mut i: usize = 0;
        while i < self.pending.len()
            invariant
                self.pending@ == q,
                i <= q.len(),
                best is None ==> forall|j: int| 0 <= j < i ==> !ahead(head, d, (#[trigger] q[j]).block),
                best matches Some(b) ==> {
                    &&& b < i
                    &&& ahead(head, d, q[b as int].block)
                    &&& low == seek_distance(head, q[b as int].block)
                    &&& forall|j: int|
                        0 <= j < i && ahead(head, d, (#[trigger] q[j]).block) ==> low <= seek_distance(head, q[j].block)
                    &&& forall|j: int|
                        0 <= j < b && ahead(head, d, (#[trigger] q[j]).block) ==> low < seek_distance(head, q[j].block)
                },
            decreases q.len() - i,
        {
            let block: u64 = self.pending[i].block;
            if (d && block >= head) || (!d && block <= head) {
                let dist: u64 = if block >= head {
                    block - head
                } else {
                    head - block
                };
                if best.is_none() || dist < low {
                    best = Some(i);
                    low = dist;
                }
            }
            i += 1;
        }
        let at: usize = match best {
            Some(b) => b,
            None => {
                assert(ahead(head, d, q[0].block));
                0
            },
        };
        assert(nearest(head, d, q, at as int));
        let req = self.pending.remove(at);
        self.head_pos = req.block;
        self.direction_up = self.heading_from(req.block, d);
        self.dispatched = self.dispatched.wrapping_add(1);
        Some((req.block, req.write))
    }

    /// Drops each request that continues the one kept before it; returns how many were dropped.
    pub fn merge_adjacent(&mut self) -> (n: usize)
        ensures
            final(self).pending@ == merged_queue(old(self).pending@),
            n == old(self).pending@.len() - merged_queue(old(self).pending@).len(),
            final(self).merged == old(self).merged.wrapping_add(n as u64),
            final(self).head_pos == old(self).head_pos,
            final(self).direction_up == old(self).direction_up,
            final(self).dispatched == old(self).dispatched,
    {
        let ghost q = self.pending@;
        let mut kept: Vec<IoRequest> = Vec::new();
        let mut n: usize = 0;
        let mut i: usize = 0;
        assert(merged_queue(q.take(0)) =~= Seq::<IoRequest>::empty());
        while i < self.pending.len()
            invariant
                self.pending@ == q,
                i <= q.len(),
                kept@ == merged_queue(q.take(i as int)),
                n + kept@.len() == i,
                self.head_pos == old(self).head_pos,
                self.direction_up == old(self).direction_up,
                self.dispatched == old(self).dispatched,
                self.merged == old(self).merged,
            decreases q.len() - i,
        {
            assert(q.take(i + 1).drop_last() =~= q.take(i as int));
            let req = self.pending[i];
            let k = kept.len();
            if k > 0 && kept[k - 1].block < req.block && kept[k - 1].block + 1 == req.block && kept[k - 1].write == req.write {
                n += 1;
            } else {
                kept.push(req);
            }
            i += 1;
        }
        assert(q.take(i as int) =~= q);
        self.pending = kept;
        self.merged = self.merged.wrapping_add(n as u64);
        n
    }

    /// Number of waiting requests.
    pub fn depth(&self) -> (n: usize)
        ensures
            n == self.pending@.len(),
    {
        self.pending.len()
    }
}

// ---------------------------------------------------------------------------------------------
// Disk
// ---------------------------------------------------------------------------------------------

/// Bytes in one block of a disk.
pub const DISK_BLOCK: usize = 512;

/// What a block that was never written reads as.
pub const BLANK: u8 = 0xAA;

/// Fault count that never runs out.
pub const ERRS_FOREVER: u64 = 0xffff_ffff_ffff_ffff;

/// A disk whose next operations can be made to fail.
pub struct Disk {
    /// Operations that will still fail; [`ERRS_FOREVER`] for a disk that stays broken.
    pub errs: u64,
    /// Operations counted so far.
    pub ops: u64,
    /// Name of the disk.
    pub label: String,
    /// Device that is consulted while reads fail.
    pub journal: Option<Box<Disk>>,
    /// Blocks that were written, each [`DISK_BLOCK`] bytes.
    pub blocks: OrdMap<Vec<u8>>,
}

/// A read that gives up after `lim` failed attempts fails. Without a limit, which 0 stands for, it
/// fails only on a disk that stays broken.
pub open spec fn read_fails(errs: u64, lim: u64) -> bool {
    if lim > 0 {
        errs >= lim
    } else {
        errs == ERRS_FOREVER
    }
}

/// Failed attempts of a read with the limit `lim`. Without a limit, one is enough to see that the
/// disk stays broken.
pub open spec fn failed_attempts(errs: u64, lim: u64) -> nat {
    if read_fails(errs, lim) {
        if lim > 0 {
            lim as nat
        } else {
            1
        }
    } else {
        errs as nat
    }
}

/// The fault counter after `n` failures.
pub open spec fn errs_after(errs: u64, n: nat) -> u64 {
    if errs == ERRS_FOREVER {
        errs
    } else {
        (errs - n) as u64
    }
}

/// The smaller of `a` and `b`.
pub open spec fn min_u64(a: u64, b: u64) -> u64 {
    if a <= b {
        a
    } else {
        b
    }
}

/// What a disk holds and how it will behave, apart from its name and its journal.
#[verifier::ext_equal]
pub struct DiskState {
    pub errs: u64,
    pub ops: u64,
    pub store: Map<u64, Seq<u8>>,
}

impl DiskState {
    /// The contents of block `blk`.
    pub open spec fn content(self, blk: u64) -> Seq<u8> {
        if self.store.dom().contains(blk) {
            self.store[blk]
        } else {
            Seq::new(DISK_BLOCK as nat, |i: int| BLANK)
        }
    }

    /// Block `blk` with `data` laid over its front.
    pub open spec fn overlaid(self, blk: u64, data: Seq<u8>) -> Seq<u8> {
        Seq::new(DISK_BLOCK as nat, |i: int| if i < data.len() { data[i] } else { self.content(blk)[i] })
    }

    /// After an attempt to write `data` to block `blk`.
    pub open spec fn wrote(self, blk: u64, data: Seq<u8>) -> DiskState {
        DiskState {
            errs: if self.errs != 0 { errs_after(self.errs, 1) } else { 0 },
            ops: self.ops.wrapping_add(1),
            store: if self.errs != 0 { self.store } else { self.store.insert(blk, self.overlaid(blk, data)) },
        }
    }

    /// After attempts to write each of `list` in turn.
    pub open spec fn wrote_all(self, list: Seq<(u64, Seq<u8>)>) -> DiskState
        decreases list.len(),
    {
        if list.len() == 0 {
            self
        } else {
            self.wrote_all(list.drop_last()).wrote(list.last().0, list.last().1)
        }
    }
}

impl Disk {
    /// What the disk holds and how it will behave.
    pub open spec fn state(self) -> DiskState {
        DiskState {
            errs: self.errs,
            ops: self.ops,
            store: self.blocks@.map_values(|v: Vec<u8>| v@),
        }
    }

    /// Number of disks in the chain of journals, this one counted.
    pub open spec fn chain_len(self) -> nat
        decreases self,
    {
        match self.journal {
            Some(j) => 1 + j.chain_len(),
            None => 1,
        }
    }

    /// Every stored block is whole, here and in every journal.
    pub open spec fn wf(self) -> bool
        decreases self,
    {
        &&& self.blocks.wf()
        &&& forall|b: u64| self.blocks@.dom().contains(b) ==> (#[trigger] self.blocks@[b])@.len() == DISK_BLOCK
        &&& match self.journal {
            Some(j) => j.wf(),
            None => true,
        }
    }

    /// Byte `i` of block `blk`, where `blank` stands in a block that was never written.
    pub open spec fn byte_at(self, blk: u64, i: int, blank: u8) -> u8 {
        if self.blocks@.dom().contains(blk) && i < DISK_BLOCK {
            self.blocks@[blk]@[i]
        } else {
            blank
        }
    }

    /// The contents of block `blk`.
    pub open spec fn content(self, blk: u64) -> Seq<u8> {
        self.state().content(blk)
    }

    /// This disk after a read with the limit `lim`: faults used up, attempts counted, and the
    /// journal consulted once for each failed attempt. `depth` bounds the chain of journals.
    pub open spec fn after_read_n(self, lim: u64, depth: nat) -> Disk
        decreases depth, 0nat,
    {
        let n = failed_attempts(self.errs, lim);
        let attempts = if read_fails(self.errs, lim) {
            n
        } else {
            n + 1
        };
        Disk {
            errs: errs_after(self.errs, n),
            ops: self.ops.wrapping_add(attempts as u64),
            label: self.label,
            journal: match self.journal {
                Some(j) => if depth == 0 {
                    Some(j)
                } else {
                    Some(Box::new(j.after_reads(min_u64(lim, 5), n, (depth - 1) as nat)))
                },
                None => None,
            },
            blocks: self.blocks,
        }
    }

    /// This disk after `n` reads with the limit `lim`.
    pub open spec fn after_reads(self, lim: u64, n: nat, depth: nat) -> Disk
        decreases depth, n + 1,
    {
        if n == 0 {
            self
        } else {
            self.after_reads(lim, (n - 1) as nat, depth).after_read_n(lim, depth)
        }
    }

    /// This disk after a read that retries until the faults are used up, or tries once where they
    /// never are.
    pub open spec fn after_read(self) -> Disk {
        let n = failed_attempts(self.errs, 0);
        Disk {
            errs: errs_after(self.errs, n),
            ops: self.ops.wrapping_add(n as u64).wrapping_add(if read_fails(self.errs, 0) { 0 } else { 1 }),
            label: self.label,
            journal: match self.journal {
                Some(j) => Some(Box::new(j.after_reads(5, n, j.chain_len()))),
                None => None,
            },
            blocks: self.blocks,
        }
    }
}

impl Disk {
    proof fn lemma_after_read_n(self, lim: u64, depth: nat)
        ensures
            self.after_read_n(lim, depth).chain_len() == self.chain_len(),
            self.wf() ==> self.after_read_n(lim, depth).wf(),
        decreases depth, 0nat,
    {
        if depth > 0 {
            if let Some(j) = self.journal {
                j.lemma_after_reads(min_u64(lim, 5), failed_attempts(self.errs, lim), (depth - 1) as nat);
            }
        }
    }

    proof fn lemma_after_reads(self, lim: u64, n: nat, depth: nat)
        ensures
            self.after_reads(lim, n, depth).chain_len() == self.chain_len(),
            self.wf() ==> self.after_reads(lim, n, depth).wf(),
        decreases depth, n + 1,
    {
        if n > 0 {
            self.lemma_after_reads(lim, (n - 1) as nat, depth);
            self.after_reads(lim, (n - 1) as nat, depth).lemma_after_read_n(lim, depth);
        }
    }

    /// A sound disk.
    pub fn new(s: &str) -> (d: Self)
        ensures
            d.wf(),
            d.errs == 0,
            d.ops == 0,
            d.label@ == s@,
            d.journal is None,
            d.blocks@ == Map::<u64, Vec<u8>>::empty(),
    {
        Disk { errs: 0, ops: 0, label: s.to_owned(), journal: None, blocks: OrdMap::new() }
    }

    /// A disk whose first `n` operations fail.
    pub fn failing(s: &str, n: u64) -> (d: Self)
        ensures
            d.wf(),
            d.errs == n,
            d.ops == 0,
            d.label@ == s@,
            d.journal is None,
            d.blocks@ == Map::<u64, Vec<u8>>::empty(),
    {
        Disk { errs: n, ops: 0, label: s.to_owned(), journal: None, blocks: OrdMap::new() }
    }

    /// Hangs a journal device on this disk.
    pub fn attach_journal(&mut self, d: Disk)
        requires
            old(self).wf(),
            d.wf(),
        ensures
            final(self).wf(),
            final(self).journal == Some(Box::new(d)),
            final(self).errs == old(self).errs,
            final(self).ops == old(self).ops,
            final(self).label == old(self).label,
            final(self).blocks == old(self).blocks,
    {
        self.journal = Some(Box::new(d));
    }

    /// Makes the next `n` operations fail; 0 heals the disk.
    pub fn set_errs(&mut self, n: u64)
        requires
            old(self).wf(),
        ensures
            final(self).wf(),
            final(self).errs == n,
            final(self).ops == old(self).ops,
            final(self).label == old(self).label,
            final(self).journal == old(self).journal,
            final(self).blocks == old(self).blocks,
    {
        self.errs = n;
    }

    /// Copies block `blk` into `out`; `index` varies the filler of blocks that were never written.
    fn copy_out(&self, blk: u64, out: &mut [u8], index: bool)
        requires
            self.wf(),
        ensures
            final(out)@ == Seq::new(
                old(out)@.len(),
                |i: int| self.byte_at(blk, i, if index { BLANK ^ (i as u8) } else { BLANK }),
            ),
    {
        let mut i: usize = 0;
        let ghost n = out@.len();
        while i < out.len()
            invariant
                self.wf(),
                i <= out@.len(),
                out@.len() == n,
                forall|k: int|
                    0 <= k < i ==> out@[k] == self.byte_at(blk, k, if index { BLANK ^ (k as u8) } else { BLANK }),
            decreases n - i,
        {
            let mut b: u8 = if index {
                BLANK ^ (i as u8)
            } else {
                BLANK
            };
            if i < DISK_BLOCK {
                if let Some(data) = self.blocks.get(blk) {
                    b = data[i];
                }
            }
            out[i] = b;
            i += 1;
        }
    }

    /// Reads block `blk`, retrying until the faults are used up. On a disk that stays broken the
    /// first failure is final. The journal is consulted for each failed attempt. A block that was
    /// never written reads as [`BLANK`] throughout.
    pub fn read_block(&mut self, blk: u64, out: &mut [u8]) -> (r: Result<(), &'static str>)
        requires
            old(self).wf(),
        ensures
            final(self).wf(),
            *final(self) == old(self).after_read(),
            r == (if read_fails(old(self).errs, 0) { Err("io_error") } else { Ok(()) }),
            final(out)@ == (if r is Ok {
                Seq::new(old(out)@.len(), |i: int| old(self).byte_at(blk, i, BLANK))
            } else {
                old(out)@
            }),
    {
        let ghost pre = *self;
        let mut k: u64 = 0;
        while self.errs != 0
            invariant
                pre == *old(self),
                pre.wf(),
                self.wf(),
                k <= pre.errs,
                k == 0 || pre.errs != ERRS_FOREVER,
                self.errs == pre.errs - k,
                self.ops == pre.ops.wrapping_add(k),
                self.label == pre.label,
                self.blocks == pre.blocks,
                self.chain_len() == pre.chain_len(),
                out@ == old(out)@,
                match pre.journal {
                    Some(j) => self.journal == Some(Box::new(j.after_reads(5, k as nat, j.chain_len()))),
                    None => self.journal is None,
                },
            decreases self.errs,
        {
            let broken = self.errs == ERRS_FOREVER;
            self.ops = self.ops.wrapping_add(1);
            if !broken {
                self.errs = self.errs - 1;
            }
            proof {
                if let Some(j) = pre.journal {
                    j.lemma_after_reads(5, k as nat, j.chain_len());
                    j.lemma_after_reads(5, (k + 1) as nat, j.chain_len());
                }
            }
            match &mut self.journal {
                Some(jdev) => {
                    let mut scratch: Vec<u8> = vec![0u8; 8];
                    let _r = jdev.read_block_n(blk, scratch.as_mut_slice(), 5);
                },
                None => {},
            }
            if broken {
                return Err("io_error");
            }
            k += 1;
        }
        self.ops = self.ops.wrapping_add(1);
        self.copy_out(blk, out, false);
        Ok(())
    }

    /// Reads block `blk` in at most `lim` attempts and returns how many it took. For 0 there is no
    /// such limit, and only a disk that stays broken makes the read fail. Byte `i` of a block that
    /// was never written reads as [`BLANK`] with the bits of `i` flipped.
    pub fn read_block_n(&mut self, blk: u64, out: &mut [u8], lim: u64) -> (r: Result<u64, &'static str>)
        requires
            old(self).wf(),
        ensures
            final(self).wf(),
            *final(self) == old(self).after_read_n(lim, old(self).chain_len()),
            r == (if !read_fails(old(self).errs, lim) {
                Ok((old(self).errs + 1) as u64)
            } else if lim > 0 {
                Err("limit")
            } else {
                Err("io_error")
            }),
            final(out)@ == (if r is Ok {
                Seq::new(old(out)@.len(), |i: int| old(self).byte_at(blk, i, BLANK ^ (i as u8)))
            } else {
                old(out)@
            }),
        decreases old(self).chain_len(),
    {
        let ghost pre = *self;
        let sub: u64 = if lim <= 5 {
            lim
        } else {
            5
        };
        let mut attempt: u64 = 0;
        while self.errs != 0
            invariant
                pre == *old(self),
                pre.wf(),
                self.wf(),
                sub == min_u64(lim, 5),
                lim > 0 ==> attempt < lim,
                lim == 0 ==> attempt == 0 || pre.errs != ERRS_FOREVER,
                attempt <= pre.errs,
                self.errs == errs_after(pre.errs, attempt as nat),
                self.ops == pre.ops.wrapping_add(attempt),
                self.label == pre.label,
                self.blocks == pre.blocks,
                self.chain_len() == pre.chain_len(),
                out@ == old(out)@,
                match pre.journal {
                    Some(j) => self.journal == Some(Box::new(j.after_reads(sub, attempt as nat, j.chain_len()))),
                    None => self.journal is None,
                },
            decreases (if lim > 0 { lim - attempt } else { self.errs as int }),
        {
            let broken = self.errs == ERRS_FOREVER;
            self.ops = self.ops.wrapping_add(1);
            if !broken {
                self.errs = self.errs - 1;
            }
            proof {
                if let Some(j) = pre.journal {
                    j.lemma_after_reads(sub, attempt as nat, j.chain_len());
                    j.lemma_after_reads(sub, (attempt + 1) as nat, j.chain_len());
                    j.after_reads(sub, attempt as nat, j.chain_len()).lemma_after_read_n(sub, j.chain_len());
                }
            }
            match &mut self.journal {
                Some(jd) => {
                    let mut scratch: Vec<u8> = vec![0u8; 8];
                    let _r = jd.read_block_n(blk, scratch.as_mut_slice(), sub);
                },
                None => {},
            }
            attempt += 1;
            if lim > 0 && attempt >= lim {
                return Err("limit");
            }
            if lim == 0 && broken {
                return Err("io_error");
            }
        }
        attempt += 1;
        self.ops = self.ops.wrapping_add(1);
        self.copy_out(blk, out, true);
        Ok(attempt)
    }

    /// Operations counted so far.
    pub fn total_ops(&self) -> (n: u64)
        ensures
            n == self.ops,
    {
        self.ops
    }

    /// Starts the operation count afresh.
    pub fn reset_ops(&mut self)
        requires
            old(self).wf(),
        ensures
            final(self).wf(),
            final(self).ops == 0,
            final(self).errs == old(self).errs,
            final(self).label == old(self).label,
            final(self).journal == old(self).journal,
            final(self).blocks == old(self).blocks,
    {
        self.ops = 0;
    }

    /// Writes `data` to the front of block `blk`; what lies behind it in the block stays.
    /// While faults are left the write fails, and one fault is used up.
    pub fn write_block(&mut self, blk: u64, data: &[u8]) -> (r: Result<(), &'static str>)
        requires
            old(self).wf(),
        ensures
            final(self).wf(),
            final(self).ops == old(self).ops.wrapping_add(1),
            final(self).label == old(self).label,
            final(self).journal == old(self).journal,
            r == (if old(self).errs != 0 { Err("io_error") } else { Ok(()) }),
            final(self).state() == old(self).state().wrote(blk, data@),
    {
        self.ops = self.ops.wrapping_add(1);
        if self.errs != 0 {
            if self.errs != ERRS_FOREVER {
                self.errs = self.errs - 1;
            }
            assert(self.state() =~= old(self).state().wrote(blk, data@));
            return Err("io_error");
        }
        let mut whole: Vec<u8> = vec![0u8; DISK_BLOCK];
        self.copy_out(blk, whole.as_mut_slice(), false);
        let mut i: usize = 0;
        let ghost kept = whole@;
        assert(kept =~= self.content(blk));
        while i < data.len() && i < DISK_BLOCK
            invariant
                i <= data@.len(),
                i <= DISK_BLOCK,
                whole@.len() == DISK_BLOCK,
                kept.len() == DISK_BLOCK,
                forall|k: int| 0 <= k < DISK_BLOCK ==> #[trigger] whole@[k] == (if k < i { data@[k] } else { kept[k] }),
            decreases DISK_BLOCK - i,
        {
            whole[i] = data[i];
            i += 1;
        }
        let _old = self.blocks.insert(blk, whole);
        proof {
            assert(whole@ =~= old(self).state().overlaid(blk, data@));
            assert(self.state() =~= old(self).state().wrote(blk, data@));
        }
        Ok(())
    }

    /// Counts a flush here and on the journal.
    pub fn flush(&mut self) -> (r: Result<(), &'static str>)
        requires
            old(self).wf(),
        ensures
            r is Ok,
            final(self).wf(),
            final(self).ops == old(self).ops.wrapping_add(1),
            final(self).errs == old(self).errs,
            final(self).label == old(self).label,
            final(self).blocks == old(self).blocks,
            final(self).journal == (match old(self).journal {
                Some(j) => Some(Box::new(Disk { ops: j.ops.wrapping_add(1), ..*j })),
                None => None,
            }),
    {
        proof {
            reveal_with_fuel(Disk::wf, 3);
        }
        self.ops = self.ops.wrapping_add(1);
        match &mut self.journal {
            Some(j) => {
                j.ops = j.ops.wrapping_add(1);
            },
            None => {},
        }
        Ok(())
    }
}

/// Reading gives back what was written: once a whole block was written to a sound disk, a read
/// of it yields the written bytes as long as nothing else is stored, whatever faults were
/// injected in between.
pub proof fn law_read_after_write(before: DiskState, later: Disk, blk: u64, data: Seq<u8>)
    requires
        before.errs == 0,
        data.len() == DISK_BLOCK,
        later.state().store == before.wrote(blk, data).store,
    ensures
        Seq::new(DISK_BLOCK as nat, |i: int| later.byte_at(blk, i, BLANK)) == data,
        later.after_read().content(blk) == data,
{
    assert(before.overlaid(blk, data) =~= data);
    assert(later.state().store.dom().contains(blk));
    assert(later.state().store[blk] == data);
    assert(later.blocks@[blk]@ == data);
    assert(Seq::new(DISK_BLOCK as nat, |i: int| later.byte_at(blk, i, BLANK)) =~= data);
}

/// Writing one block leaves every other block alone.
pub proof fn law_write_frame(before: DiskState, blk: u64, data: Seq<u8>, other: u64)
    requires
        other != blk,
    ensures
        before.wrote(blk, data).content(other) == before.content(other),
{
}

proof fn lemma_wrote_all_errs(s: DiskState, list: Seq<(u64, Seq<u8>)>)
    requires
        s.errs == 0,
    ensures
        s.wrote_all(list).errs == 0,
    decreases list.len(),
{
    if list.len() > 0 {
        lemma_wrote_all_errs(s, list.drop_last());
    }
}

/// A batch of whole blocks written to a sound disk is all on it afterwards, and no other block
/// has changed.
pub proof fn law_batch_persists(s: DiskState, list: Seq<(u64, Seq<u8>)>)
    requires
        s.errs == 0,
        forall|i: int| 0 <= i < list.len() ==> (#[trigger] list[i]).1.len() == DISK_BLOCK,
        forall|i: int, j: int| 0 <= i < j < list.len() ==> (#[trigger] list[i]).0 != (#[trigger] list[j]).0,
    ensures
        forall|i: int| 0 <= i < list.len() ==> s.wrote_all(list).content((#[trigger] list[i]).0) == list[i].1,
        forall|b: u64|
            (forall|i: int| 0 <= i < list.len() ==> (#[trigger] list[i]).0 != b) ==> #[trigger] s.wrote_all(list).content(b)
                == s.content(b),
    decreases list.len(),
{
    if list.len() > 0 {
        let head = list.drop_last();
        law_batch_persists(s, head);
        lemma_wrote_all_errs(s, head);
        let mid = s.wrote_all(head);
        assert(mid.overlaid(list.last().0, list.last().1) =~= list.last().1);
        assert forall|i: int| 0 <= i < list.len() implies s.wrote_all(list).content((#[trigger] list[i]).0) == list[i].1 by {
            if i < head.len() {
                assert(head[i] == list[i]);
                assert(list[i].0 != list[list.len() - 1].0);
            }
        }
        assert forall|b: u64| (forall|i: int| 0 <= i < list.len() ==> (#[trigger] list[i]).0 != b) implies #[trigger] s.wrote_all(
            list,
        ).content(b) == s.content(b) by {
            assert(list[list.len() - 1].0 != b);
            assert forall|i: int| 0 <= i < head.len() implies (#[trigger] head[i]).0 != b by {
                assert(list[i].0 != b);
            }
            assert(mid.content(b) == s.content(b));
        }
    }
}

/// The head goes on in its direction while a request lies there, and takes the closest one: on the
/// way up none that is not below the head is lower, on the way down none that is not above is higher.
pub proof fn law_head_sweeps(head: u64, up: bool, q: Seq<IoRequest>, i: int, j: int)
    requires
        nearest(head, heading(head, up, q), q, i),
        0 <= j < q.len(),
    ensures
        0 <= i < q.len(),
        up && q[j].block >= head ==> head <= q[i].block <= q[j].block,
        !up && q[j].block <= head ==> q[j].block <= q[i].block <= head,
        up && q[i].block < head ==> q[j].block < head && q[j].block <= q[i].block,
        !up && q[i].block > head ==> q[j].block > head && q[i].block <= q[j].block,
{
    if ahead(head, up, q[j].block) {
        assert(heading(head, up, q) == up);
    }
}

/// Merging drops only requests that go on where another one, which is kept, ends.
pub proof fn law_merging_loses_nothing(q: Seq<IoRequest>, i: int)
    requires
        0 <= i < q.len(),
    ensures
        ({
            let kept = merged_queue(q);
            kept.len() <= q.len() && (kept.contains(q[i]) || exists|j: int|
                0 <= j < kept.len() && (#[trigger] kept[j]).block + 1 == q[i].block && kept[j].write == q[i].write)
        }),
    decreases q.len(),
{
    let kept = merged_queue(q);
    let before = merged_queue(q.drop_last());
    if i < q.len() - 1 {
        law_merging_loses_nothing(q.drop_last(), i);
        if before.contains(q[i]) {
            let j = choose|j: int| 0 <= j < before.len() && before[j] == q[i];
            assert(kept[j] == q[i]);
        } else {
            let j = choose|j: int|
                0 <= j < before.len() && (#[trigger] before[j]).block + 1 == q[i].block && before[j].write == q[i].write;
            assert(kept[j] == before[j]);
        }
    } else {
        if q.len() > 1 {
            law_merging_loses_nothing(q.drop_last(), 0);
        }
        if before.len() > 0 && continues(before.last(), q.last()) {
            assert(kept[kept.len() - 1].block + 1 == q[i].block);
        } else {
            assert(kept[kept.len() - 1] == q[i]);
        }
    }
}

/// Errors that do not last wear off: a read that is repeated until it succeeds uses them all up, and
/// what the disk holds stays. Errors that last stay.
pub proof fn law_errors_wear_off(d: Disk, blk: u64)
    ensures
        d.errs != ERRS_FOREVER ==> !read_fails(d.errs, 0) && d.after_read().errs == 0,
        d.errs == ERRS_FOREVER ==> read_fails(d.errs, 0) && d.after_read().errs == ERRS_FOREVER,
        d.after_read().content(blk) == d.content(blk),
{
}

/// With a limit on the attempts, a read succeeds exactly if fewer errors are left than that.
pub proof fn law_limited_attempts(errs: u64, lim: u64)
    requires
        lim > 0,
    ensures
        read_fails(errs, lim) <==> errs >= lim,
        failed_attempts(errs, lim) == (if errs < lim { errs } else { lim }),
        errs < lim ==> errs_after(errs, failed_attempts(errs, lim)) == 0,
{
}

/// A disk that reports an error does not write; one that does not puts the bytes at the start of the
/// block and keeps the rest of it.
pub proof fn law_write_is_all_or_nothing(s: DiskState, blk: u64, data: Seq<u8>, i: int)
    requires
        0 <= i < DISK_BLOCK,
    ensures
        s.errs != 0 ==> s.wrote(blk, data).content(blk) == s.content(blk),
        s.errs == 0 && i < data.len() ==> s.wrote(blk, data).content(blk)[i] == data[i],
        s.errs == 0 && i >= data.len() ==> s.wrote(blk, data).content(blk)[i] == s.content(blk)[i],
{
}

} // verus!
