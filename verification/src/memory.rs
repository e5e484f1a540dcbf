//! Physical memory: zones, ring buffers, slabs, the frame pool and the buddy allocator.

use vstd::prelude::*;
use vstd::arithmetic::power2::*;
use crate::consts::{MEM_OFF, PAGE_SZ, PHYS_OFF, SLAB_ALIGN};
use crate::ordmap::OrdMap;
use crate::utils::log2_floor;
use crate::vm::PgFrame;

verus! {

// ---------------------------------------------------------------------------------------------
// Zones
// ---------------------------------------------------------------------------------------------

/// A stretch of frames with watermarks.
pub struct ZoneInfo {
    /// The zone's number.
    pub zone_id: u64,
    /// First frame.
    pub base_pfn: u64,
    /// Number of frames.
    pub page_count: u64,
    /// Frames that are free.
    pub free_count: u64,
    /// At or below this many free frames nothing is handed out.
    pub low_watermark: u64,
    /// Number of free frames that reclaim aims at.
    pub high_watermark: u64,
    /// Whether the zone is in use.
    pub managed: bool,
}

impl ZoneInfo {
    /// A zone with all its frames free.
    pub fn new(id: u64, base: u64, count: u64, low: u64, high: u64) -> (z: Self)
        ensures
            z == (ZoneInfo {
                zone_id: id,
                base_pfn: base,
                page_count: count,
                free_count: count,
                low_watermark: low,
                high_watermark: high,
                managed: true,
            }),
    {
        ZoneInfo {
            zone_id: id,
            base_pfn: base,
            page_count: count,
            free_count: count,
            low_watermark: low,
            high_watermark: high,
            managed: true,
        }
    }

    /// Whether frames are handed out: more are free than the low watermark.
    pub fn zone_can_alloc(&self) -> (b: bool)
        ensures
            b == (self.free_count > self.low_watermark),
    {
        self.free_count > self.low_watermark
    }

    /// Memory pressure in percent: none at the high watermark, full at the low one, linear between.
    pub open spec fn pressure(self) -> int {
        if self.free_count >= self.high_watermark {
            0
        } else if self.free_count <= self.low_watermark {
            100
        } else {
            ((self.high_watermark - self.free_count) * 100) / (self.high_watermark - self.low_watermark)
        }
    }

    /// Memory pressure in percent.
    pub fn zone_pressure(&self) -> (p: u64)
        requires
            self.low_watermark < self.free_count < self.high_watermark ==> (self.high_watermark - self.free_count) * 100
                <= u64::MAX,
        ensures
            p == self.pressure(),
            p <= 100,
    {
        let free: u64 = self.free_count;
        if free >= self.high_watermark {
            return 0;
        }
        if free <= self.low_watermark {
            return 100;
        }
        let range: u64 = self.high_watermark - self.low_watermark;
        let deficit: u64 = self.high_watermark - free;
        assert((deficit * 100) / (range as int) <= 100) by (nonlinear_arith)
            requires
                0 < deficit <= range,
        ;
        (deficit * 100) / range
    }

    /// Frames that reclaim has to win back.
    pub fn reclaim_target(&self) -> (n: u64)
        ensures
            n == (if self.free_count >= self.high_watermark { 0 } else { self.high_watermark - self.free_count }),
    {
        if self.free_count >= self.high_watermark {
            return 0;
        }
        self.high_watermark - self.free_count
    }

    /// Whether frame `pfn` belongs to the zone.
    pub fn contains_pfn(&self, pfn: u64) -> (b: bool)
        requires
            self.base_pfn + self.page_count <= u64::MAX,
        ensures
            b == (self.base_pfn <= pfn < self.base_pfn + self.page_count),
    {
        pfn >= self.base_pfn && pfn < self.base_pfn + self.page_count
    }
}

// ---------------------------------------------------------------------------------------------
// Ring buffer
// ---------------------------------------------------------------------------------------------

/// A byte queue of bounded length in a ring.
pub struct CircBuf {
    /// The ring.
    pub data: Vec<u8>,
    /// Position of the byte read last.
    pub rd: usize,
    /// Position of the byte written last.
    pub wr: usize,
    /// Bytes that fit.
    pub cap: usize,
    /// Bytes in the queue.
    pub n: usize,
}

/// `p` moved on by one, reduced to the ring first where it would run over.
pub open spec fn next_pos(p: usize, cap: usize) -> usize {
    if p == usize::MAX {
        (p % cap + 1) as usize
    } else {
        (p + 1) as usize
    }
}

/// Place in the ring of the `j`-th byte behind the read position `rd`.
pub open spec fn ring_pos(rd: int, j: int, cap: int) -> int {
    (rd + 1 + j) % cap
}

/// A queue that holds at most `cap` bytes after `v` was put behind it, if there is room.
pub open spec fn ring_pushed(q: Seq<u8>, cap: int, v: u8) -> Seq<u8> {
    if q.len() < cap {
        q.push(v)
    } else {
        q
    }
}

/// The byte that comes out of a queue next, and what is left.
pub open spec fn ring_popped(q: Seq<u8>) -> (Option<u8>, Seq<u8>) {
    if q.len() == 0 {
        (None, q)
    } else {
        (Some(q[0]), q.drop_first())
    }
}

/// A queue that holds at most `cap` bytes after those of `src` were put behind it that fit.
pub open spec fn ring_filled(q: Seq<u8>, cap: int, src: Seq<u8>) -> Seq<u8> {
    q + src.take(if src.len() < cap - q.len() { src.len() as int } else { cap - q.len() })
}

/// What comes out of a queue when up to `max` bytes are taken, and what is left.
pub open spec fn ring_drained(q: Seq<u8>, max: int) -> (Seq<u8>, Seq<u8>) {
    let n = if max < q.len() { max } else { q.len() as int };
    (q.take(n), q.skip(n))
}

impl CircBuf {
    /// The bytes in the queue, oldest first.
    pub open spec fn view(&self) -> Seq<u8> {
        Seq::new(self.n as nat, |j: int| self.data@[ring_pos(self.rd as int, j, self.cap as int)])
    }

    /// The ring has the stated size, and the write position is as far ahead as the queue is long.
    pub open spec fn wf(&self) -> bool {
        &&& self.data@.len() == self.cap
        &&& self.n <= self.cap
        &&& self.cap > 0 ==> (self.rd + self.n) % self.cap as int == self.wr as int % self.cap as int
    }

    /// An empty queue for `c` bytes.
    pub fn new(c: usize) -> (b: Self)
        ensures
            b.wf(),
            b@ == Seq::<u8>::empty(),
            b.cap == c,
            b.rd == 0,
            b.wr == 0,
    {
        let b = CircBuf { data: vec![0u8; c], rd: 0, wr: 0, cap: c, n: 0 };
        assert(b@ =~= Seq::<u8>::empty());
        b
    }

    /// A queue of zero bytes between the given positions.
    pub fn with_pos(c: usize, r: usize, w: usize) -> (b: Self)
        requires
            w >= r || (r <= c && c - r + w <= usize::MAX),
        ensures
            b.data@ == Seq::new(c as nat, |i: int| 0u8),
            b.rd == r,
            b.wr == w,
            b.cap == c,
            b.n == (if w >= r { w - r } else { c - r + w }),
            b.n <= c ==> b.wf(),
    {
        let n: usize = if w >= r {
            w - r
        } else {
            c - r + w
        };
        let b = CircBuf { data: vec![0u8; c], rd: r, wr: w, cap: c, n };
        assert(b.data@ =~= Seq::new(c as nat, |i: int| 0u8));
        proof {
            if c > 0 && w < r {
                vstd::arithmetic::div_mod::lemma_mod_add_multiples_vanish(w as int, c as int);
            }
        }
        b
    }

    /// Appends a byte; `false` where the queue is full.
    pub fn push(&mut self, v: u8) -> (b: bool)
        requires
            old(self).wf(),
        ensures
            final(self).wf(),
            final(self).cap == old(self).cap,
            b == (old(self)@.len() < old(self).cap),
            final(self)@ == (if b { old(self)@.push(v) } else { old(self)@ }),
            final(self)@ == ring_pushed(old(self)@, old(self).cap as int, v),
            final(self).rd == old(self).rd,
            final(self).wr == (if b { next_pos(old(self).wr, old(self).cap) } else { old(self).wr }),
    {
        if self.n >= self.cap {
            return false;
        }
        let ghost before = *self;
        let cap = self.cap;
        self.wr = if self.wr == usize::MAX {
            self.wr % cap + 1
        } else {
            self.wr + 1
        };
        let i: usize = self.wr % cap;
        self.data[i] = v;
        self.n += 1;
        proof {
            let c = cap as int;
            let w = before.wr as int;
            let rn = before.rd + before.n;
            lemma_succ_mod(w, c);
            lemma_succ_mod(rn, c);
            vstd::arithmetic::div_mod::lemma_mod_bound(rn + 1, c);
            assert((w % c + 1) % c == (w + 1) % c);
            assert(i == (rn + 1) % c);
            assert forall|j: int| 0 <= j < before.n implies self@[j] == before@[j] by {
                lemma_mod_distinct(before.rd + 1 + j, rn + 1, c);
                vstd::arithmetic::div_mod::lemma_mod_bound(before.rd + 1 + j, c);
            }
            assert(self@ =~= before@.push(v));
        }
        true
    }

    /// Takes the oldest byte.
    pub fn pop(&mut self) -> (r: Option<u8>)
        requires
            old(self).wf(),
        ensures
            final(self).wf(),
            final(self).cap == old(self).cap,
            r == (if old(self)@.len() == 0 { None } else { Some(old(self)@[0]) }),
            final(self)@ == (if old(self)@.len() == 0 { old(self)@ } else { old(self)@.drop_first() }),
            (r, final(self)@) == ring_popped(old(self)@),
            final(self).wr == old(self).wr,
            final(self).rd == (if old(self)@.len() == 0 { old(self).rd } else { next_pos(old(self).rd, old(self).cap) }),
    {
        if self.n == 0 {
            return None;
        }
        let ghost before = *self;
        let cap = self.cap;
        self.rd = if self.rd == usize::MAX {
            self.rd % cap + 1
        } else {
            self.rd + 1
        };
        let i: usize = self.rd % cap;
        self.n -= 1;
        proof {
            let c = cap as int;
            let r0 = before.rd as int;
            let r1 = self.rd as int;
            lemma_succ_mod(r0, c);
            assert(r1 % c == (r0 + 1) % c);
            lemma_shift_mod(r1, r0 + 1, self.n as int, c);
            assert(before@[0] == self.data@[(r0 + 1) % c]);
            assert forall|j: int| 0 <= j < self.n implies self@[j] == before@.drop_first()[j] by {
                lemma_shift_mod(r1, r0 + 1, 1 + j, c);
            }
            assert(self@ =~= before@.drop_first());
        }
        Some(self.data[i])
    }

    /// Bytes in the queue.
    pub fn len(&self) -> (n: usize)
        ensures
            n == self@.len(),
    {
        self.n
    }

    /// Whether the queue is empty.
    pub fn empty(&self) -> (b: bool)
        ensures
            b == (self@.len() == 0),
    {
        self.n == 0
    }

    /// Whether nothing more fits.
    pub fn full(&self) -> (b: bool)
        ensures
            b == (self@.len() >= self.cap),
    {
        self.n >= self.cap
    }

    /// The oldest byte, which stays.
    pub fn peek(&self) -> (r: Option<u8>)
        requires
            self.wf(),
        ensures
            r == (if self@.len() == 0 { None } else { Some(self@[0]) }),
    {
        if self.n == 0 {
            return None;
        }
        let p: usize = if self.rd == usize::MAX {
            self.rd % self.cap + 1
        } else {
            self.rd + 1
        };
        proof {
            lemma_succ_mod(self.rd as int, self.cap as int);
        }
        Some(self.data[p % self.cap])
    }

    /// Moves up to `max` of the oldest bytes to `dst`; returns their number.
    pub fn drain_to(&mut self, dst: &mut Vec<u8>, max: usize) -> (n: usize)
        requires
            old(self).wf(),
        ensures
            final(self).wf(),
            final(self).cap == old(self).cap,
            n == (if max < old(self)@.len() { max as nat } else { old(self)@.len() }),
            final(dst)@ == old(dst)@ + old(self)@.take(n as int),
            final(self)@ == old(self)@.skip(n as int),
            final(dst)@ == old(dst)@ + ring_drained(old(self)@, max as int).0,
            final(self)@ == ring_drained(old(self)@, max as int).1,
    {
        let take: usize = if max < self.n {
            max
        } else {
            self.n
        };
        let ghost all = self@;
        let mut i: usize = 0;
        assert(all.take(0) =~= Seq::<u8>::empty());
        assert(dst@ =~= old(dst)@ + all.take(0));
        assert(all.skip(0) =~= all);
        while i < take
            invariant
                self.wf(),
                self.cap == old(self).cap,
                i <= take <= all.len(),
                dst@ == old(dst)@ + all.take(i as int),
                self@ == all.skip(i as int),
            decreases take - i,
        {
            if let Some(b) = self.pop() {
                dst.push(b);
            }
            i += 1;
            assert(dst@ =~= old(dst)@ + all.take(i as int));
            assert(self@ =~= all.skip(i as int));
        }
        take
    }

    /// Appends bytes of `src` until the queue is full; returns their number.
    pub fn fill_from(&mut self, src: &[u8]) -> (n: usize)
        requires
            old(self).wf(),
        ensures
            final(self).wf(),
            final(self).cap == old(self).cap,
            n == (if src@.len() < old(self).cap - old(self)@.len() { src@.len() as int } else { old(self).cap - old(self)@.len() }),
            final(self)@ == old(self)@ + src@.take(n as int),
            final(self)@ == ring_filled(old(self)@, old(self).cap as int, src@),
    {
        let ghost had = self@;
        let mut i: usize = 0;
        assert(had + src@.take(0) =~= had);
        while i < src.len()
            invariant
                self.wf(),
                self.cap == old(self).cap,
                had == old(self)@,
                had.len() <= self.cap,
                i <= src@.len(),
                had.len() + i <= self.cap,
                self@ == had + src@.take(i as int),
            decreases src@.len() - i,
        {
            if !self.push(src[i]) {
                return i;
            }
            i += 1;
            assert(self@ =~= had + src@.take(i as int));
        }
        i
    }

    /// Bytes that still fit.
    pub fn remaining(&self) -> (n: usize)
        ensures
            n == (if self@.len() < self.cap { self.cap - self@.len() } else { 0 }),
    {
        if self.n < self.cap {
            self.cap - self.n
        } else {
            0
        }
    }
}

proof fn lemma_succ_mod(x: int, c: int)
    requires
        c > 0,
        x >= 0,
    ensures
        (x % c + 1) % c == (x + 1) % c,
{
    vstd::arithmetic::div_mod::lemma_add_mod_noop_right(1, x, c);
}

proof fn lemma_shift_mod(a: int, b: int, k: int, c: int)
    requires
        c > 0,
        a % c == b % c,
    ensures
        (a + k) % c == (b + k) % c,
{
    vstd::arithmetic::div_mod::lemma_add_mod_noop(a, k, c);
    vstd::arithmetic::div_mod::lemma_add_mod_noop(b, k, c);
}

proof fn lemma_mod_distinct(a: int, b: int, c: int)
    requires
        0 <= a < b,
        b - a < c,
    ensures
        a % c != b % c,
{
    if a % c == b % c {
        vstd::arithmetic::div_mod::lemma_mod_equivalence(a, b, c);
        vstd::arithmetic::div_mod::lemma_fundamental_div_mod(a, c);
        vstd::arithmetic::div_mod::lemma_fundamental_div_mod(b, c);
        let qa = a / c;
        let qb = b / c;
        assert(b - a == c * (qb - qa)) by (nonlinear_arith)
            requires
                a == c * qa + a % c,
                b == c * qb + b % c,
                a % c == b % c,
        ;
        assert(false) by (nonlinear_arith)
            requires
                0 < b - a < c,
                b - a == c * (qb - qa),
        ;
    }
}

/// What goes into a ring comes out of it in the same order: of an empty ring that was filled, all
/// that found room comes out, from the first byte on, and nothing is left.
pub proof fn law_fifo(cap: nat, src: Seq<u8>, max: nat)
    requires
        max >= src.len(),
    ensures
        ({
            let n = if src.len() < cap { src.len() as int } else { cap as int };
            let held = ring_filled(Seq::empty(), cap as int, src);
            &&& ring_drained(held, max as int).0 == src.take(n)
            &&& ring_drained(held, max as int).1.len() == 0
        }),
{
    let n = if src.len() < cap { src.len() as int } else { cap as int };
    let held = ring_filled(Seq::empty(), cap as int, src);
    assert(held =~= src.take(n));
    assert(held.take(held.len() as int) =~= held);
}

/// A byte that is put into a ring comes out behind those that are in it already; a full ring takes
/// nothing, and an empty one gives nothing.
pub proof fn law_ring_keeps_order(q: Seq<u8>, cap: int, v: u8)
    requires
        q.len() <= cap,
    ensures
        ({
            let p = ring_pushed(q, cap, v);
            &&& q.len() == 0 && cap > 0 ==> ring_popped(p) == (Some(v), q)
            &&& 0 < q.len() < cap ==> ring_popped(p).0 == Some(q[0]) && ring_popped(p).1 == ring_pushed(
                ring_popped(q).1,
                cap,
                v,
            )
            &&& q.len() == cap ==> p == q
            &&& p.len() <= cap
            &&& q.len() == 0 ==> ring_popped(q).0 is None
        }),
{
    let p = ring_pushed(q, cap, v);
    if q.len() == 0 && cap > 0 {
        assert(p.drop_first() =~= q);
    } else if q.len() < cap {
        assert(p.drop_first() =~= q.drop_first().push(v));
    }
}

// ---------------------------------------------------------------------------------------------
// Slabs
// ---------------------------------------------------------------------------------------------

/// Objects of one size in one piece of memory.
pub struct SlabEntry {
    /// The memory.
    pub data: Vec<u8>,
    /// Size of an object.
    pub obj_size: usize,
    /// Number of objects that the slab was made for.
    pub capacity: usize,
    /// Offsets of the free objects, the next one to be handed out first.
    pub free_list: Vec<usize>,
    /// Objects handed out.
    pub allocated: usize,
    /// Free for the owner's use.
    pub tag: u32,
}

/// `size` rounded up to the slab alignment.
pub open spec fn slab_size(size: usize) -> int {
    (size + SLAB_ALIGN - 1) / SLAB_ALIGN as int * SLAB_ALIGN
}

/// `s` with zeros in `from..to`.
pub open spec fn zeroed_in(s: Seq<u8>, from: int, to: int) -> Seq<u8> {
    Seq::new(s.len(), |i: int| if from <= i < to { 0u8 } else { s[i] })
}

/// The place that a slab gives next, and the places that are then free.
pub open spec fn slab_taken(free: Seq<usize>) -> (Option<usize>, Seq<usize>) {
    if free.len() == 0 {
        (None, free)
    } else {
        (Some(free[0]), free.drop_first())
    }
}

/// The free places of a slab of `len` bytes after the one at `offset` was given back, if objects of
/// `size` bytes can stand there.
pub open spec fn slab_given_back(free: Seq<usize>, offset: usize, size: usize, len: nat) -> Seq<usize> {
    if offset < len && offset as int % size as int == 0 {
        free.push(offset)
    } else {
        free
    }
}

impl SlabEntry {
    /// The memory holds whole objects, and every free offset is that of one.
    pub open spec fn wf(&self) -> bool {
        &&& self.obj_size > 0 ==> self.data@.len() as int % self.obj_size as int == 0
        &&& forall|i: int|
            0 <= i < self.free_list@.len() ==> (#[trigger] self.free_list@[i]) + self.obj_size <= self.data@.len()
    }

    /// A slab of `capacity` free objects of at least `obj_size` bytes.
    pub fn new(obj_size: usize, capacity: usize) -> (s: Self)
        requires
            obj_size + SLAB_ALIGN - 1 <= usize::MAX,
            slab_size(obj_size) * capacity <= usize::MAX,
        ensures
            s.wf(),
            s.obj_size == slab_size(obj_size),
            s.capacity == capacity,
            s.data@ == Seq::new((slab_size(obj_size) * capacity) as nat, |i: int| 0u8),
            s.free_list@ == Seq::new(capacity as nat, |i: int| (i * slab_size(obj_size)) as usize),
            s.allocated == 0,
            s.tag == 0,
    {
        let up: usize = obj_size + (SLAB_ALIGN - 1);
        assert(up & !7usize == up / 8 * 8) by (bit_vector);
        let aligned: usize = up & !(SLAB_ALIGN - 1);
        assert(aligned == slab_size(obj_size));
        let total: usize = aligned * capacity;
        let mut fl: Vec<usize> = Vec::new();
        let mut i: usize = 0;
        while i < capacity
            invariant
                i <= capacity,
                aligned == slab_size(obj_size),
                total == aligned * capacity,
                fl@.len() == i,
                forall|k: int| 0 <= k < i ==> #[trigger] fl@[k] == k * slab_size(obj_size),
            decreases capacity - i,
        {
            assert(i * aligned + aligned <= total) by (nonlinear_arith)
                requires
                    i < capacity,
                    total == aligned * capacity,
            ;
            fl.push(i * aligned);
            i += 1;
        }
        let s = SlabEntry { data: vec![0u8; total], obj_size: aligned, capacity, free_list: fl, allocated: 0, tag: 0 };
        proof {
            if aligned > 0 {
                vstd::arithmetic::div_mod::lemma_mod_multiples_basic(capacity as int, aligned as int);
                assert(total == capacity * aligned) by (nonlinear_arith)
                    requires
                        total == aligned * capacity,
                ;
            }
            assert(s.data@ =~= Seq::new((slab_size(obj_size) * capacity) as nat, |i: int| 0u8));
            assert(s.free_list@ =~= Seq::new(capacity as nat, |i: int| (i * slab_size(obj_size)) as usize));
            assert forall|k: int| 0 <= k < s.free_list@.len() implies (#[trigger] s.free_list@[k]) + s.obj_size <= s.data@.len() by {
                assert(k * aligned + aligned <= total) by (nonlinear_arith)
                    requires
                        k < capacity,
                        total == aligned * capacity,
                ;
            }
        }
        s
    }

    /// Hands out the next free object, cleared if `zeroed`, by its offset.
    pub fn slab_alloc(&mut self, zeroed: bool) -> (r: Option<usize>)
        requires
            old(self).wf(),
            old(self).allocated < usize::MAX,
        ensures
            final(self).wf(),
            r == (if old(self).free_list@.len() == 0 { None } else { Some(old(self).free_list@[0]) }),
            (r, final(self).free_list@) == slab_taken(old(self).free_list@),
            r is None ==> *final(self) == *old(self),
            r matches Some(slot) ==> {
                &&& final(self).free_list@ == old(self).free_list@.drop_first()
                &&& final(self).allocated == old(self).allocated + 1
                &&& final(self).data@ == (if zeroed {
                    zeroed_in(old(self).data@, slot as int, slot + old(self).obj_size)
                } else {
                    old(self).data@
                })
            },
            final(self).obj_size == old(self).obj_size,
            final(self).capacity == old(self).capacity,
            final(self).tag == old(self).tag,
    {
        if self.free_list.len() == 0 {
            return None;
        }
        let ghost before = *self;
        let slot: usize = self.free_list.remove(0);
        assert(before.free_list@[0] == slot);
        assert(self.free_list@ =~= before.free_list@.drop_first());
        let room = self.data.len();
        assert(slot + self.obj_size <= room);
        let stop: usize = slot + self.obj_size;
        if zeroed {
            let mut pos: usize = slot;
            while pos < stop
                invariant
                    slot <= pos <= stop <= self.data@.len(),
                    self.data@ == zeroed_in(before.data@, slot as int, pos as int),
                    self.free_list@ == before.free_list@.drop_first(),
                    self.obj_size == before.obj_size,
                    self.capacity == before.capacity,
                    self.tag == before.tag,
                    self.allocated == before.allocated,
                decreases stop - pos,
            {
                self.data[pos] = 0;
                pos += 1;
                assert(self.data@ =~= zeroed_in(before.data@, slot as int, pos as int));
            }
        }
        self.allocated += 1;
        proof {
            assert forall|i: int| 0 <= i < self.free_list@.len() implies (#[trigger] self.free_list@[i]) + self.obj_size
                <= self.data@.len() by {
                assert(before.free_list@[i + 1] + before.obj_size <= before.data@.len());
            }
        }
        Some(slot)
    }

    /// Takes the object at `offset` back. An offset outside the memory, or not that of an object,
    /// is ignored.
    pub fn slab_free(&mut self, offset: usize)
        requires
            old(self).wf(),
            old(self).obj_size > 0,
        ensures
            final(self).wf(),
            final(self).free_list@ == slab_given_back(
                old(self).free_list@,
                offset,
                old(self).obj_size,
                old(self).data@.len(),
            ),
            final(self).data == old(self).data,
            final(self).obj_size == old(self).obj_size,
            final(self).capacity == old(self).capacity,
            final(self).tag == old(self).tag,
            ({
                let valid = offset < old(self).data@.len() && offset as int % old(self).obj_size as int == 0;
                &&& final(self).free_list@ == (if valid { old(self).free_list@.push(offset) } else { old(self).free_list@ })
                &&& final(self).allocated == (if valid && old(self).allocated > 0 {
                    old(self).allocated - 1
                } else {
                    old(self).allocated as int
                })
            }),
    {
        let valid = offset < self.data.len();
        let aligned = (offset % self.obj_size) == 0;
        if valid && aligned {
            proof {
                lemma_multiple_fits(offset as int, self.data@.len() as int, self.obj_size as int);
            }
            self.free_list.push(offset);
            if self.allocated > 0 {
                self.allocated -= 1;
            }
        }
    }

    /// Objects handed out.
    pub fn slab_used(&self) -> (n: usize)
        ensures
            n == self.allocated,
    {
        self.allocated
    }

    /// Objects that are free.
    pub fn slab_avail(&self) -> (n: usize)
        ensures
            n == self.free_list@.len(),
    {
        self.free_list.len()
    }

    /// Gives the memory up if no object is handed out; returns the bytes given up.
    pub fn shrink(&mut self) -> (n: usize)
        requires
            old(self).wf(),
        ensures
            final(self).wf(),
            old(self).allocated == 0 ==> n == old(self).data@.len() && final(self).data@.len() == 0 && final(self).free_list@.len()
                == 0,
            old(self).allocated > 0 ==> n == 0 && *final(self) == *old(self),
            final(self).allocated == old(self).allocated,
            final(self).obj_size == old(self).obj_size,
            final(self).capacity == old(self).capacity,
            final(self).tag == old(self).tag,
    {
        let before = self.data.len();
        if self.allocated == 0 {
            self.data.clear();
            self.free_list.clear();
        }
        before - self.data.len()
    }

    /// The bytes of the object at `offset`.
    pub fn obj_at(&self, offset: usize) -> (r: Option<&[u8]>)
        requires
            offset + self.obj_size <= usize::MAX,
        ensures
            r is Some <==> offset + self.obj_size <= self.data@.len(),
            r matches Some(b) ==> b@ == self.data@.subrange(offset as int, offset + self.obj_size),
    {
        if offset + self.obj_size <= self.data.len() {
            Some(vstd::slice::slice_subrange(self.data.as_slice(), offset, offset + self.obj_size))
        } else {
            None
        }
    }

    /// The bytes of the object at `offset`, to be changed in place.
    pub fn obj_at_mut(&mut self, offset: usize) -> (r: Option<&mut [u8]>)
        requires
            offset + old(self).obj_size <= usize::MAX,
        ensures
            r is Some <==> offset + old(self).obj_size <= old(self).data@.len(),
            match r {
                Some(b) => {
                    &&& b@ == old(self).data@.subrange(offset as int, offset + old(self).obj_size)
                    &&& final(b)@.len() == old(self).obj_size ==> final(self).data@ == old(self).data@.take(offset as int) + final(b)@
                        + old(self).data@.skip(offset + old(self).obj_size)
                },
                None => final(self).data@ == old(self).data@,
            },
            final(self).free_list == old(self).free_list,
            final(self).obj_size == old(self).obj_size,
            final(self).capacity == old(self).capacity,
            final(self).allocated == old(self).allocated,
            final(self).tag == old(self).tag,
    {
        let size = self.obj_size;
        if offset + size <= self.data.len() {
            let (_head, rest) = self.data.as_mut_slice().split_at_mut(offset);
            let (body, _tail) = rest.split_at_mut(size);
            Some(body)
        } else {
            None
        }
    }
}

proof fn lemma_multiple_fits(x: int, n: int, k: int)
    requires
        k > 0,
        0 <= x < n,
        x % k == 0,
        n % k == 0,
    ensures
        x + k <= n,
{
    vstd::arithmetic::div_mod::lemma_fundamental_div_mod(x, k);
    vstd::arithmetic::div_mod::lemma_fundamental_div_mod(n, k);
    let a = x / k;
    let b = n / k;
    assert(x + k <= n) by (nonlinear_arith)
        requires
            x == k * a,
            n == k * b,
            x < n,
            k > 0,
    ;
}

/// Handing an object out and taking it back moves it to the end of the free list and leaves the
/// number of free objects as it was.
pub proof fn law_slab_free_undoes_alloc(free: Seq<usize>)
    requires
        free.len() > 0,
    ensures
        free.drop_first().push(free[0]).len() == free.len(),
        free.drop_first().push(free[0]).to_multiset() == free.to_multiset(),
{
    broadcast use vstd::seq_lib::group_to_multiset_ensures;

    let slot = free[0];
    assert(free =~= seq![slot] + free.drop_first());
    vstd::seq_lib::lemma_multiset_commutative(seq![slot], free.drop_first());
    vstd::seq_lib::lemma_multiset_commutative(free.drop_first(), seq![slot]);
    assert(free.drop_first().push(slot) =~= free.drop_first() + seq![slot]);
    assert(seq![slot].to_multiset().add(free.drop_first().to_multiset()) =~= free.drop_first().to_multiset().add(
        seq![slot].to_multiset(),
    ));
}

// ---------------------------------------------------------------------------------------------
// Frame pool
// ---------------------------------------------------------------------------------------------

/// The physical page frames: which are free, and what they hold.
pub struct FramePool {
    /// `true` for a free frame.
    pub slots: Vec<bool>,
    /// Number of frames.
    pub cap: usize,
    /// Contents of the frames that were written, each one page.
    pub frames: OrdMap<Vec<u8>>,
}

/// Frame `i` is the first free one.
pub open spec fn first_free(slots: Seq<bool>, i: int) -> bool {
    0 <= i < slots.len() && slots[i] && (forall|j: int| 0 <= j < i ==> !slots[j])
}

/// No frame is free.
pub open spec fn none_free(slots: Seq<bool>) -> bool {
    forall|i: int| 0 <= i < slots.len() ==> !slots[i]
}

/// The frame that is `k` steps behind `start`, round the pool.
pub open spec fn round_from(start: int, k: int, n: int) -> int {
    (start + k) % n
}

/// Frame `i` is the first free one from `start` on, round the pool.
pub open spec fn first_free_from(slots: Seq<bool>, start: int, i: int) -> bool {
    exists|k: int|
        {
            &&& 0 <= k < slots.len()
            &&& i == #[trigger] round_from(start, k, slots.len() as int)
            &&& slots[i]
            &&& forall|j: int| 0 <= j < k ==> !slots[#[trigger] round_from(start, j, slots.len() as int)]
        }
}

/// The frames `start..start + n` are all free.
pub open spec fn run_free(slots: Seq<bool>, start: int, n: int) -> bool {
    0 <= start && start + n <= slots.len() && (forall|i: int| start <= i < start + n ==> slots[i])
}

/// `start` is the lowest multiple of `align` from which `n` frames are free.
pub open spec fn lowest_run(slots: Seq<bool>, n: int, align: int, start: int) -> bool {
    &&& start % align == 0
    &&& run_free(slots, start, n)
    &&& forall|s: int| 0 <= s < start && s % align == 0 ==> !#[trigger] run_free(slots, s, n)
}

/// `slots` with `n` frames from `start` on taken.
pub open spec fn taken(slots: Seq<bool>, start: int, n: int) -> Seq<bool> {
    Seq::new(slots.len(), |i: int| if start <= i < start + n { false } else { slots[i] })
}

/// The free frames in ascending order.
pub open spec fn free_list(slots: Seq<bool>) -> Seq<usize>
    decreases slots.len(),
{
    if slots.len() == 0 {
        Seq::empty()
    } else {
        let f = free_list(slots.drop_last());
        if slots.last() {
            f.push((slots.len() - 1) as usize)
        } else {
            f
        }
    }
}

/// `slots` with the first `n` free frames taken.
pub open spec fn first_taken(slots: Seq<bool>, n: nat) -> Seq<bool> {
    Seq::new(slots.len(), |i: int| slots[i] && free_list(slots.take(i)).len() >= n)
}

/// Frame `i` of the pool lies in the zone.
pub open spec fn in_zone(zone: ZoneInfo, slots: Seq<bool>, i: int) -> bool {
    zone.base_pfn <= i < zone.base_pfn + zone.page_count && i < slots.len()
}

pub proof fn lemma_round_visits_all(n: int, start: int, i: int) -> (k: int)
    requires
        0 <= start < n,
        0 <= i < n,
    ensures
        0 <= k < n,
        round_from(start, k, n) == i,
{
    if i >= start {
        vstd::arithmetic::div_mod::lemma_small_mod(i as nat, n as nat);
        i - start
    } else {
        vstd::arithmetic::div_mod::lemma_mod_add_multiples_vanish(i, n);
        vstd::arithmetic::div_mod::lemma_small_mod(i as nat, n as nat);
        i + n - start
    }
}

/// Taking a frame gives `r` and leaves `after`: the first free frame, if there is one.
pub open spec fn frame_got(slots: Seq<bool>, r: Option<usize>, after: Seq<bool>) -> bool {
    match r {
        Some(i) => first_free(slots, i as int) && after == slots.update(i as int, false),
        None => none_free(slots) && after == slots,
    }
}

/// Which frames are free after frame `idx` was given back.
pub open spec fn frame_put(slots: Seq<bool>, idx: usize) -> Seq<bool> {
    if idx < slots.len() {
        slots.update(idx as int, true)
    } else {
        slots
    }
}

impl FramePool {
    /// The bitmap has the stated size, and every stored frame is whole.
    pub open spec fn wf(&self) -> bool {
        &&& self.slots@.len() == self.cap
        &&& self.frames.wf()
        &&& forall|f: u64| self.frames@.dom().contains(f) ==> (#[trigger] self.frames@[f])@.len() == PAGE_SZ
    }

    /// The contents of frame `f`: zeros until it is written.
    pub open spec fn frame(&self, f: int) -> Seq<u8> {
        if 0 <= f <= u64::MAX && self.frames@.dom().contains(f as u64) {
            self.frames@[f as u64]@
        } else {
            Seq::new(PAGE_SZ as nat, |i: int| 0u8)
        }
    }

    /// The addresses of all frames fit the word.
    pub open spec fn addressable(&self) -> bool {
        self.slots@.len() * PAGE_SZ + MEM_OFF <= u64::MAX
    }

    /// A pool of `n` free frames.
    pub fn new(n: usize) -> (p: Self)
        ensures
            p.wf(),
            p.cap == n,
            p.slots@ == Seq::new(n as nat, |i: int| true),
            p.frames@ == Map::<u64, Vec<u8>>::empty(),
    {
        let p = FramePool { slots: vec![true; n], cap: n, frames: OrdMap::new() };
        assert(p.slots@ =~= Seq::new(n as nat, |i: int| true));
        p
    }

    /// Takes the first free frame. The caller's number makes no difference.
    pub fn get(&mut self, id: u64) -> (r: Option<usize>)
        requires
            old(self).wf(),
        ensures
            final(self).wf(),
            frame_got(old(self).slots@, r, final(self).slots@),
            r is None <==> none_free(old(self).slots@),
            r matches Some(i) ==> first_free(old(self).slots@, i as int) && final(self).slots@ == old(self).slots@.update(
                i as int,
                false,
            ),
            r is None ==> *final(self) == *old(self),
            final(self).frames == old(self).frames,
    {
        self.get_inner()
    }

    /// Takes the first free frame.
    pub fn get_inner(&mut self) -> (r: Option<usize>)
        requires
            old(self).wf(),
        ensures
            final(self).wf(),
            frame_got(old(self).slots@, r, final(self).slots@),
            r is None <==> none_free(old(self).slots@),
            r matches Some(i) ==> first_free(old(self).slots@, i as int) && final(self).slots@ == old(self).slots@.update(
                i as int,
                false,
            ),
            r is None ==> *final(self) == *old(self),
            final(self).frames == old(self).frames,
    {
        let mut i: usize = 0;
        while i < self.slots.len()
            invariant
                *self == *old(self),
                self.wf(),
                i <= self.slots@.len(),
                forall|j: int| 0 <= j < i ==> !self.slots@[j],
            decreases self.slots@.len() - i,
        {
            if self.slots[i] {
                self.slots[i] = false;
                return Some(i);
            }
            i += 1;
        }
        None
    }

    /// Takes the first free frame from `start` on, round the pool.
    fn take_from(&mut self, start: usize) -> (r: Option<usize>)
        requires
            old(self).wf(),
            old(self).slots@.len() > 0 ==> start < old(self).slots@.len(),
        ensures
            final(self).wf(),
            r is None <==> none_free(old(self).slots@),
            r matches Some(i) ==> {
                &&& i < old(self).slots@.len()
                &&& first_free_from(old(self).slots@, start as int, i as int)
                &&& final(self).slots@ == old(self).slots@.update(i as int, false)
            },
            r is None ==> final(self).slots@ == old(self).slots@,
            final(self).frames == old(self).frames,
    {
        let n = self.slots.len();
        let mut k: usize = 0;
        while k < n
            invariant
                *self == *old(self),
                self.wf(),
                n == self.slots@.len(),
                k <= n,
                n > 0 ==> start < n,
                forall|j: int| 0 <= j < k ==> !self.slots@[#[trigger] round_from(start as int, j, n as int)],
            decreases n - k,
        {
            let i: usize = if k < n - start {
                start + k
            } else {
                k - (n - start)
            };
            proof {
                if k >= n - start {
                    vstd::arithmetic::div_mod::lemma_mod_add_multiples_vanish(i as int, n as int);
                }
                vstd::arithmetic::div_mod::lemma_small_mod(i as nat, n as nat);
                assert(i == round_from(start as int, k as int, n as int));
            }
            if self.slots[i] {
                self.slots[i] = false;
                return Some(i);
            }
            k += 1;
        }
        proof {
            assert forall|i: int| 0 <= i < n implies !self.slots@[i] by {
                let w = lemma_round_visits_all(n as int, start as int, i);
                assert(!self.slots@[round_from(start as int, w, n as int)]);
            }
        }
        None
    }

    /// Looks for the lowest run of `sz` free frames at a multiple of `align`, and takes it.
    fn take_run(&mut self, sz: usize, align: u64) -> (r: Option<usize>)
        requires
            old(self).wf(),
            align > 0,
        ensures
            final(self).wf(),
            r matches Some(s) ==> {
                &&& lowest_run(old(self).slots@, sz as int, align as int, s as int)
                &&& final(self).slots@ == taken(old(self).slots@, s as int, sz as int)
            },
            r is None ==> {
                &&& forall|s: int| 0 <= s && s % align as int == 0 ==> !#[trigger] run_free(old(self).slots@, s, sz as int)
                &&& final(self).slots@ == old(self).slots@
            },
            final(self).frames == old(self).frames,
    {
        let n = self.slots.len();
        let ghost slots = self.slots@;
        let mut start: u128 = 0;
        assert(0int % (align as int) == 0) by {
            vstd::arithmetic::div_mod::lemma_small_mod(0, align as nat);
        }
        while start + sz as u128 <= n as u128
            invariant
                *self == *old(self),
                self.wf(),
                slots == self.slots@,
                n == slots.len(),
                align > 0,
                start as int % align as int == 0,
                start <= n + align,
                forall|s: int| 0 <= s < start && s % align as int == 0 ==> !#[trigger] run_free(slots, s, sz as int),
            decreases n + align + 1 - start,
        {
            let first: usize = start as usize;
            let mut j: usize = first;
            while j < first + sz && self.slots[j]
                invariant
                    *self == *old(self),
                    slots == self.slots@,
                    n == slots.len(),
                    first + sz <= n,
                    first <= j <= first + sz,
                    forall|i: int| first <= i < j ==> slots[i],
                decreases first + sz - j,
            {
                j += 1;
            }
            if j == first + sz {
                assert(run_free(slots, first as int, sz as int));
                let mut k: usize = first;
                while k < first + sz
                    invariant
                        self.cap == old(self).cap,
                        self.frames == old(self).frames,
                        n == slots.len(),
                        first + sz <= n,
                        first <= k <= first + sz,
                        self.slots@ == taken(slots, first as int, k - first),
                    decreases first + sz - k,
                {
                    self.slots[k] = false;
                    k += 1;
                    assert(self.slots@ =~= taken(slots, first as int, k - first));
                }
                return Some(first);
            }
            assert(!run_free(slots, first as int, sz as int));
            proof {
                let a = align as int;
                let s0 = start as int;
                vstd::arithmetic::div_mod::lemma_mod_add_multiples_vanish(s0, a);
                assert(s0 + a == a + s0);
                assert forall|s: int| 0 <= s < s0 + a && s % a == 0 implies !#[trigger] run_free(slots, s, sz as int) by {
                    if s >= s0 {
                        lemma_next_multiple(s0, s, a);
                    }
                }
            }
            start = start + align as u128;
        }
        None
    }

    /// Takes the lowest run of `sz` free frames at a multiple of `2^align_log2`. In an empty pool
    /// there is none, whatever its size.
    pub fn get_contig(&mut self, sz: usize, align_log2: u64) -> (r: Option<usize>)
        requires
            old(self).wf(),
            align_log2 < 64,
        ensures
            final(self).wf(),
            r matches Some(s) ==> {
                &&& s < old(self).slots@.len()
                &&& lowest_run(old(self).slots@, sz as int, pow2(align_log2 as nat) as int, s as int)
                &&& final(self).slots@ == taken(old(self).slots@, s as int, sz as int)
            },
            r is None ==> {
                &&& forall|s: int|
                    0 <= s < old(self).slots@.len() && s % pow2(align_log2 as nat) as int == 0 ==> !#[trigger] run_free(
                        old(self).slots@,
                        s,
                        sz as int,
                    )
                &&& final(self).slots@ == old(self).slots@
            },
            final(self).frames == old(self).frames,
    {
        if self.slots.len() == 0 {
            return None;
        }
        proof {
            crate::utils::lemma_shl_one(align_log2);
        }
        let a: u64 = 1u64 << align_log2;
        let r = self.take_run(sz, a);
        proof {
            if let Some(s) = r {
                if s >= old(self).slots@.len() {
                    assert(sz == 0);
                    vstd::arithmetic::div_mod::lemma_small_mod(0, a as nat);
                    assert(run_free(old(self).slots@, 0, sz as int));
                }
            }
        }
        r
    }

    /// Gives a frame back; one that does not exist is ignored.
    pub fn put(&mut self, idx: usize)
        requires
            old(self).wf(),
        ensures
            final(self).wf(),
            final(self).slots@ == (if idx < old(self).slots@.len() {
                old(self).slots@.update(idx as int, true)
            } else {
                old(self).slots@
            }),
            final(self).slots@ == frame_put(old(self).slots@, idx),
            final(self).frames == old(self).frames,
    {
        if idx < self.slots.len() {
            self.slots[idx] = true;
        }
    }

    /// Whether frame `idx` exists and is free.
    pub fn avail(&self, idx: usize) -> (b: bool)
        ensures
            b == (idx < self.slots@.len() && self.slots@[idx as int]),
    {
        idx < self.slots.len() && self.slots[idx]
    }

    /// Number of free frames.
    pub fn free_count(&self) -> (n: usize)
        ensures
            n == crate::utils::free_count(self.slots@),
            n <= self.slots@.len(),
    {
        let mut n: usize = 0;
        let mut i: usize = 0;
        while i < self.slots.len()
            invariant
                i <= self.slots@.len(),
                n <= i,
                n == crate::utils::free_count(self.slots@.take(i as int)),
            decreases self.slots@.len() - i,
        {
            if self.slots[i] {
                n += 1;
            }
            i += 1;
            assert(self.slots@.take(i as int).drop_last() =~= self.slots@.take(i - 1));
        }
        assert(self.slots@.take(i as int) =~= self.slots@);
        n
    }

    /// Takes the first free frame of a zone that hands out frames, and counts it off.
    pub fn get_zone_aware(&mut self, zone: &mut ZoneInfo) -> (r: Option<usize>)
        requires
            old(self).wf(),
            old(zone).free_count > old(zone).low_watermark ==> old(zone).base_pfn + old(zone).page_count <= u64::MAX,
        ensures
            final(self).wf(),
            r is None <==> old(zone).free_count <= old(zone).low_watermark || (forall|i: int|
                #[trigger] in_zone(*old(zone), old(self).slots@, i) ==> !old(self).slots@[i]),
            r matches Some(i) ==> {
                &&& in_zone(*old(zone), old(self).slots@, i as int)
                &&& old(self).slots@[i as int]
                &&& forall|j: int| #[trigger] in_zone(*old(zone), old(self).slots@, j) && j < i ==> !old(self).slots@[j]
                &&& final(self).slots@ == old(self).slots@.update(i as int, false)
            },
            r is None ==> final(self).slots@ == old(self).slots@ && *final(zone) == *old(zone),
            r is Some ==> *final(zone) == (ZoneInfo { free_count: old(zone).free_count.wrapping_sub(1), ..*old(zone) }),
            final(self).frames == old(self).frames,
    {
        if !zone.zone_can_alloc() {
            return None;
        }
        let base: u64 = zone.base_pfn;
        let limit: u64 = base + zone.page_count;
        let n: u64 = self.slots.len() as u64;
        let stop: u64 = if limit < n {
            limit
        } else {
            n
        };
        let mut i: u64 = base;
        assert(forall|j: int| #[trigger] in_zone(*zone, self.slots@, j) <==> base <= j < stop);
        while i < stop
            invariant
                *self == *old(self),
                *zone == *old(zone),
                self.wf(),
                zone.free_count > zone.low_watermark,
                n == self.slots@.len(),
                base == zone.base_pfn,
                limit == base + zone.page_count,
                stop <= n,
                stop <= limit,
                stop == n || stop == limit,
                base <= i,
                forall|j: int| base <= j < i && j < stop ==> !self.slots@[j],
            decreases stop - i,
        {
            if self.slots[i as usize] {
                self.slots[i as usize] = false;
                zone.free_count = zone.free_count.wrapping_sub(1);
                assert(in_zone(*old(zone), old(self).slots@, i as int));
                return Some(i as usize);
            }
            i += 1;
        }
        None
    }

    /// Gives a frame back and counts it to the zone; one that does not exist is ignored.
    pub fn put_zone_aware(&mut self, idx: usize, zone: &mut ZoneInfo)
        requires
            old(self).wf(),
        ensures
            final(self).wf(),
            idx < old(self).slots@.len() ==> {
                &&& final(self).slots@ == old(self).slots@.update(idx as int, true)
                &&& *final(zone) == (ZoneInfo { free_count: old(zone).free_count.wrapping_add(1), ..*old(zone) })
            },
            idx >= old(self).slots@.len() ==> final(self).slots@ == old(self).slots@ && *final(zone) == *old(zone),
            final(self).frames == old(self).frames,
    {
        if idx < self.slots.len() {
            self.slots[idx] = true;
            zone.free_count = zone.free_count.wrapping_add(1);
        }
    }

    /// Takes the first `count` free frames, or all where there are fewer.
    pub fn batch_alloc(&mut self, count: usize) -> (r: Vec<usize>)
        requires
            old(self).wf(),
        ensures
            final(self).wf(),
            ({
                let all = free_list(old(self).slots@);
                r@ == all.take(if count < all.len() { count as int } else { all.len() as int })
            }),
            final(self).slots@ == first_taken(old(self).slots@, count as nat),
            final(self).frames == old(self).frames,
    {
        let ghost slots = self.slots@;
        let mut r: Vec<usize> = Vec::new();
        let mut i: usize = 0;
        proof {
            assert(slots.take(0) =~= Seq::<bool>::empty());
        }
        while i < self.slots.len() && r.len() < count
            invariant
                self.cap == old(self).cap,
                self.frames == old(self).frames,
                self.slots@.len() == slots.len(),
                i <= slots.len(),
                r@ == free_list(slots.take(i as int)),
                r@.len() <= count,
                forall|j: int| 0 <= j < i ==> #[trigger] self.slots@[j] == first_taken(slots, count as nat)[j],
                forall|j: int| i <= j < slots.len() ==> self.slots@[j] == slots[j],
            decreases slots.len() - i,
        {
            proof {
                assert(slots.take(i + 1).drop_last() =~= slots.take(i as int));
            }
            if self.slots[i] {
                self.slots[i] = false;
                r.push(i);
            }
            i += 1;
        }
        proof {
            lemma_free_list_prefix(slots, i as int);
            assert(slots.take(slots.len() as int) =~= slots);
            let all = free_list(slots);
            assert(r@ =~= all.take(if count < all.len() { count as int } else { all.len() as int }));
            assert forall|j: int| i <= j < slots.len() implies slots[j] == first_taken(slots, count as nat)[j] by {
                lemma_free_list_prefix(slots.take(j), i as int);
                assert(slots.take(j).take(i as int) =~= slots.take(i as int));
            }
            assert(self.slots@ =~= first_taken(slots, count as nat));
        }
        r
    }

    /// The contents of a frame.
    pub fn read_frame(&self, fid: usize) -> (v: Vec<u8>)
        requires
            self.wf(),
        ensures
            v@ == self.frame(fid as int),
            v@.len() == PAGE_SZ,
    {
        match self.frames.get(fid as u64) {
            Some(d) => {
                let mut v: Vec<u8> = Vec::new();
                v.extend_from_slice(d.as_slice());
                assert(v@ =~= d@);
                v
            },
            None => {
                let v: Vec<u8> = vec![0u8; PAGE_SZ as usize];
                assert(v@ =~= self.frame(fid as int));
                v
            },
        }
    }

    /// Writes `data` into a frame from byte `off` on.
    pub fn write_frame(&mut self, fid: usize, off: usize, data: &[u8])
        requires
            old(self).wf(),
            off + data@.len() <= PAGE_SZ,
        ensures
            final(self).wf(),
            final(self).slots == old(self).slots,
            final(self).frame(fid as int) == Seq::new(
                PAGE_SZ as nat,
                |i: int| if off <= i < off + data@.len() { data@[i - off] } else { old(self).frame(fid as int)[i] },
            ),
            forall|f: int| f != fid ==> #[trigger] final(self).frame(f) == old(self).frame(f),
    {
        let mut v = self.read_frame(fid);
        let ghost was = v@;
        let mut i: usize = 0;
        while i < data.len()
            invariant
                i <= data@.len(),
                off + data@.len() <= PAGE_SZ,
                v@.len() == PAGE_SZ,
                was.len() == PAGE_SZ,
                forall|k: int|
                    0 <= k < PAGE_SZ ==> #[trigger] v@[k] == (if off <= k < off + i { data@[k - off] } else { was[k] }),
            decreases data@.len() - i,
        {
            v[off + i] = data[i];
            i += 1;
        }
        let ghost whole = v@;
        let _old = self.frames.insert(fid as u64, v);
        proof {
            assert(self.frame(fid as int) =~= Seq::new(
                PAGE_SZ as nat,
                |i: int| if off <= i < off + data@.len() { data@[i - off] } else { old(self).frame(fid as int)[i] },
            ));
        }
    }
}

proof fn lemma_next_multiple(s0: int, s: int, a: int)
    requires
        a > 0,
        s0 % a == 0,
        s % a == 0,
        s0 <= s < s0 + a,
    ensures
        s == s0,
{
    vstd::arithmetic::div_mod::lemma_fundamental_div_mod(s0, a);
    vstd::arithmetic::div_mod::lemma_fundamental_div_mod(s, a);
    let x = s0 / a;
    let y = s / a;
    assert(s == s0) by (nonlinear_arith)
        requires
            s0 == a * x,
            s == a * y,
            s0 <= s < s0 + a,
            a > 0,
    ;
}

proof fn lemma_free_list_prefix(slots: Seq<bool>, n: int)
    requires
        0 <= n <= slots.len(),
    ensures
        free_list(slots.take(n)).is_prefix_of(free_list(slots)),
    decreases slots.len(),
{
    if n == slots.len() {
        assert(slots.take(n) =~= slots);
    } else {
        lemma_free_list_prefix(slots.drop_last(), n);
        assert(slots.drop_last().take(n) =~= slots.take(n));
    }
}

/// A frame that was handed out is not handed out again before it is given back.
pub proof fn law_frame_exclusive(slots: Seq<bool>, i: int, j: int)
    requires
        first_free(slots, i),
        first_free(slots.update(i, false), j),
    ensures
        i != j,
{
}

/// Giving back undoes taking.
pub proof fn law_put_undoes_get(slots: Seq<bool>, i: int)
    requires
        first_free(slots, i),
    ensures
        slots.update(i, false).update(i, true) == slots,
{
    assert(slots.update(i, false).update(i, true) =~= slots);
}

// ---------------------------------------------------------------------------------------------
// Frames by address
// ---------------------------------------------------------------------------------------------

/// A page that is shared until it is first written.
pub struct SharedPage {
    /// Frame of the page.
    pub frame: usize,
    /// Whether the page can be written.
    pub w: bool,
    /// Whether it is still shared.
    pub pending: bool,
}

/// `x` reduced to a pool of `n` frames; 0 for an empty pool.
pub open spec fn reduced(x: int, n: nat) -> int {
    if n == 0 {
        0
    } else {
        x % n as int
    }
}

impl SharedPage {
    /// A shared page on frame `f`.
    pub fn new(f: usize) -> (p: Self)
        ensures
            p == (SharedPage { frame: f, w: false, pending: true }),
    {
        SharedPage { frame: f, w: false, pending: true }
    }

    /// Handles a write. A shared page moves to a frame of its own, the first free one from its
    /// old frame on, and `src` loses a reference; a page that was moved before stays.
    pub fn fault(&mut self, pool: &mut FramePool, src: &mut PgFrame) -> (r: Result<usize, &'static str>)
        requires
            old(pool).wf(),
        ensures
            final(pool).wf(),
            final(pool).frames == old(pool).frames,
            !old(self).pending ==> {
                &&& r == Ok::<usize, &'static str>(old(self).frame)
                &&& *final(self) == *old(self)
                &&& final(pool).slots@ == old(pool).slots@
                &&& *final(src) == *old(src)
            },
            old(self).pending && none_free(old(pool).slots@) ==> {
                &&& r == Err::<usize, &'static str>("oom")
                &&& *final(self) == *old(self)
                &&& final(pool).slots@ == old(pool).slots@
                &&& *final(src) == *old(src)
            },
            old(self).pending && !none_free(old(pool).slots@) ==> {
                &&& r matches Ok(nf) && first_free_from(
                    old(pool).slots@,
                    reduced(old(self).frame as int, old(pool).slots@.len()),
                    nf as int,
                ) && final(pool).slots@ == old(pool).slots@.update(nf as int, false) && *final(self) == (SharedPage {
                    frame: nf,
                    w: true,
                    pending: false,
                })
                &&& *final(src) == (PgFrame { rc: old(src).rc.wrapping_sub(1), ..*old(src) })
            },
    {
        if !self.pending {
            return Ok(self.frame);
        }
        let n = pool.slots.len();
        let start: usize = if n == 0 {
            0
        } else {
            self.frame % n
        };
        match pool.take_from(start) {
            None => Err("oom"),
            Some(nf) => {
                self.frame = nf;
                src.rc = src.rc.wrapping_sub(1);
                self.w = true;
                self.pending = false;
                Ok(nf)
            },
        }
    }

    /// Whether the page has a frame of its own and can be written.
    pub fn is_cow_resolved(&self) -> (b: bool)
        ensures
            b == (!self.pending && self.w),
    {
        !self.pending && self.w
    }

    /// Frame of the page.
    pub fn frame_id(&self) -> (f: usize)
        ensures
            f == self.frame,
    {
        self.frame
    }
}

/// Takes a frame, searching round the pool from the place that the clock points to, and returns
/// its address. Where the address does not fit the word there is none, though the frame is taken.
pub fn frame_alloc(pool: &mut FramePool, now: u64) -> (r: Option<u64>)
    requires
        old(pool).wf(),
    ensures
        final(pool).wf(),
        final(pool).frames == old(pool).frames,
        none_free(old(pool).slots@) ==> r is None && final(pool).slots@ == old(pool).slots@,
        !none_free(old(pool).slots@) ==> exists|i: int|
            {
                &&& #[trigger] first_free_from(old(pool).slots@, reduced(now as int, old(pool).slots@.len()), i)
                &&& final(pool).slots@ == old(pool).slots@.update(i, false)
                &&& r == (if i * PAGE_SZ + MEM_OFF <= u64::MAX { Some((i * PAGE_SZ + MEM_OFF) as u64) } else { None })
            },
{
    let n = pool.slots.len();
    let start: usize = if n == 0 {
        0
    } else {
        (now % (n as u64)) as usize
    };
    match pool.take_from(start) {
        None => None,
        Some(id) => {
            assert(first_free_from(old(pool).slots@, reduced(now as int, old(pool).slots@.len()), id as int));
            match (id as u64).checked_mul(PAGE_SZ) {
                None => None,
                Some(v) => v.checked_add(MEM_OFF),
            }
        },
    }
}

/// Gives back the frame at address `target`; an address that is not that of a frame is ignored.
pub fn frame_dealloc(pool: &mut FramePool, target: u64)
    requires
        old(pool).wf(),
    ensures
        final(pool).wf(),
        final(pool).frames == old(pool).frames,
        ({
            let idx = (target - MEM_OFF) / PAGE_SZ as int;
            if target >= MEM_OFF && (target - MEM_OFF) % PAGE_SZ as int == 0 && idx < old(pool).slots@.len() {
                final(pool).slots@ == old(pool).slots@.update(idx, true)
            } else {
                final(pool).slots@ == old(pool).slots@
            }
        }),
{
    if target < MEM_OFF {
        return ;
    }
    let idx: u64 = (target - MEM_OFF) / PAGE_SZ;
    if (target - MEM_OFF) % PAGE_SZ != 0 {
        return ;
    }
    if idx < pool.slots.len() as u64 {
        pool.put(idx as usize);
    }
}

/// The alignment, in frames, that `align` asks for.
pub open spec fn frame_align(align: u64) -> int {
    if align < 1 {
        1
    } else {
        pow2(align as nat) as int
    }
}

/// Takes the lowest run of `sz` free frames at a multiple of `2^align` and returns its address.
pub fn frame_alloc_contig(pool: &mut FramePool, sz: usize, align: u64) -> (r: Option<u64>)
    requires
        old(pool).wf(),
        old(pool).addressable(),
        align < 64,
    ensures
        final(pool).wf(),
        final(pool).frames == old(pool).frames,
        sz == 0 ==> r is None,
        r is None ==> final(pool).slots@ == old(pool).slots@,
        sz > 0 && r is None ==> forall|s: int|
            0 <= s && s % frame_align(align) == 0 ==> !#[trigger] run_free(old(pool).slots@, s, sz as int),
        r matches Some(pa) ==> exists|s: int|
            {
                &&& #[trigger] lowest_run(old(pool).slots@, sz as int, frame_align(align), s)
                &&& final(pool).slots@ == taken(old(pool).slots@, s, sz as int)
                &&& pa == s * PAGE_SZ + MEM_OFF
            },
{
    if sz == 0 {
        return None;
    }
    proof {
        crate::utils::lemma_shl_one(align);
    }
    let a: u64 = if align < 1 {
        1
    } else {
        1u64 << align
    };
    match pool.take_run(sz, a) {
        None => None,
        Some(s) => {
            assert(lowest_run(old(pool).slots@, sz as int, frame_align(align), s as int));
            Some(s as u64 * PAGE_SZ + MEM_OFF)
        },
    }
}

/// Size of the step by which a faulting read is retried.
pub fn rdu_fixup() -> (n: u64)
    ensures
        n == 1,
{
    1
}

/// End of a heap of `sz` bytes from `base` on, both brought to whole pages inwards.
pub fn heap_init(base: u64, sz: u64) -> (end: u64)
    requires
        base + PAGE_SZ - 1 <= u64::MAX,
        (base + PAGE_SZ - 1) / PAGE_SZ as int * PAGE_SZ + sz / PAGE_SZ * PAGE_SZ <= u64::MAX,
    ensures
        end == (base + PAGE_SZ - 1) / PAGE_SZ as int * PAGE_SZ + sz / PAGE_SZ * PAGE_SZ,
{
    let up: u64 = base + (PAGE_SZ - 1);
    assert(up & !4095u64 == up / 4096 * 4096) by (bit_vector);
    assert(sz & !4095u64 == sz / 4096 * 4096) by (bit_vector);
    let aligned_base: u64 = up & !(PAGE_SZ - 1);
    let aligned_sz: u64 = sz & !(PAGE_SZ - 1);
    aligned_base + aligned_sz
}

/// The page behind the last stretch of `addrs`, where the next one is looked for first.
pub open spec fn preferred_page(addrs: Seq<(u64, u64)>) -> int {
    if addrs.len() == 0 {
        0
    } else {
        (addrs.last().0 - PHYS_OFF) / PAGE_SZ as int + addrs.last().1 / PAGE_SZ
    }
}

/// `addrs` with page `pg` added: to its last stretch where that is next to it.
pub open spec fn with_page(addrs: Seq<(u64, u64)>, pg: int) -> Seq<(u64, u64)> {
    let va = PHYS_OFF + pg * PAGE_SZ;
    if addrs.len() > 0 && addrs.last().0 + addrs.last().1 == va {
        addrs.drop_last().push((addrs.last().0, (addrs.last().1 + PAGE_SZ) as u64))
    } else if addrs.len() > 0 && va + PAGE_SZ == addrs.last().0 {
        addrs.drop_last().push((va as u64, (addrs.last().1 + PAGE_SZ) as u64))
    } else {
        addrs.push((va as u64, PAGE_SZ))
    }
}

/// The frame that a search round the pool from page `from` on finds.
pub open spec fn found_from(slots: Seq<bool>, from: int) -> int {
    let start = reduced(from, slots.len());
    choose|i: int| first_free_from(slots, start, i)
}

/// Bitmap and stretches after `n` pages were added to a heap, or as many as were free.
pub open spec fn heap_grown(slots: Seq<bool>, n: nat) -> (Seq<bool>, Seq<(u64, u64)>)
    decreases n,
{
    if n == 0 {
        (slots, Seq::empty())
    } else {
        let s = heap_grown(slots, (n - 1) as nat);
        if none_free(s.0) {
            s
        } else {
            let pg = found_from(s.0, preferred_page(s.1));
            (s.0.update(pg, false), with_page(s.1, pg))
        }
    }
}

proof fn lemma_heap_stuck(slots: Seq<bool>, k: nat, n: nat)
    requires
        k <= n,
        none_free(heap_grown(slots, k).0),
    ensures
        heap_grown(slots, n) == heap_grown(slots, k),
    decreases n,
{
    if k < n {
        lemma_heap_stuck(slots, k, (n - 1) as nat);
    }
}

pub proof fn lemma_first_from_unique(slots: Seq<bool>, start: int, i: int, j: int)
    requires
        first_free_from(slots, start, i),
        first_free_from(slots, start, j),
    ensures
        i == j,
{
    let n = slots.len() as int;
    let a = choose|k: int|
        {
            &&& 0 <= k < slots.len()
            &&& i == #[trigger] round_from(start, k, slots.len() as int)
            &&& slots[i]
            &&& forall|j: int| 0 <= j < k ==> !slots[#[trigger] round_from(start, j, slots.len() as int)]
        };
    let b = choose|k: int|
        {
            &&& 0 <= k < slots.len()
            &&& j == #[trigger] round_from(start, k, slots.len() as int)
            &&& slots[j]
            &&& forall|x: int| 0 <= x < k ==> !slots[#[trigger] round_from(start, x, slots.len() as int)]
        };
    if a < b {
        assert(!slots[round_from(start, a, n)]);
    } else if b < a {
        assert(!slots[round_from(start, b, n)]);
    }
}

/// A stretch of whole pages of a pool of `len` frames, in the kernel's view.
pub open spec fn stretch_ok(r: (u64, u64), len: nat) -> bool {
    &&& r.0 >= PHYS_OFF
    &&& r.1 > 0
    &&& (r.0 - PHYS_OFF) % PAGE_SZ as int == 0
    &&& r.1 % PAGE_SZ == 0
    &&& r.0 + r.1 <= PHYS_OFF + len * PAGE_SZ
}

/// Takes up to `n` frames for the heap and returns them as stretches of kernel addresses. Each
/// frame is looked for behind the last stretch first, and joined to it where it fits.
pub fn heap_grow(pool: &mut FramePool, n: usize) -> (addrs: Vec<(u64, u64)>)
    requires
        old(pool).wf(),
        PHYS_OFF + old(pool).slots@.len() * PAGE_SZ <= u64::MAX,
        n * 2 <= usize::MAX,
    ensures
        final(pool).wf(),
        final(pool).frames == old(pool).frames,
        (final(pool).slots@, addrs@) == heap_grown(old(pool).slots@, n as nat),
{
    let ghost slots = pool.slots@;
    let mut addrs: Vec<(u64, u64)> = Vec::new();
    let mut acquired: usize = 0;
    let len = pool.slots.len();
    while acquired < n
        invariant
            pool.wf(),
            pool.frames == old(pool).frames,
            acquired <= n,
            len == pool.slots@.len(),
            PHYS_OFF + len * PAGE_SZ <= u64::MAX,
            slots == old(pool).slots@,
            (pool.slots@, addrs@) == heap_grown(slots, acquired as nat),
            forall|i: int| 0 <= i < addrs@.len() ==> stretch_ok(#[trigger] addrs@[i], len as nat),
        decreases n - acquired,
    {
        let ghost before = (pool.slots@, addrs@);
        let k = addrs.len();
        let preferred: u64 = if k == 0 {
            0
        } else {
            assert(stretch_ok(addrs@[k - 1], len as nat));
            (addrs[k - 1].0 - PHYS_OFF) / PAGE_SZ + addrs[k - 1].1 / PAGE_SZ
        };
        assert(preferred == preferred_page(addrs@));
        let start: usize = if len == 0 {
            0
        } else {
            (preferred % (len as u64)) as usize
        };
        match pool.take_from(start) {
            None => {
                proof {
                    lemma_heap_stuck(slots, acquired as nat, n as nat);
                }
                return addrs;
            },
            Some(pg) => {
                let ghost from = preferred_page(before.1);
                proof {
                    lemma_first_from_unique(before.0, start as int, pg as int, found_from(before.0, from));
                }
                let va: u64 = PHYS_OFF + pg as u64 * PAGE_SZ;
                let mut merged = false;
                if k > 0 {
                    assert(stretch_ok(addrs@[k - 1], len as nat));
                    let last: (u64, u64) = addrs[k - 1];
                    if last.0 + last.1 == va {
                        addrs[k - 1] = (last.0, last.1 + PAGE_SZ);
                        merged = true;
                        assert(addrs@ =~= with_page(before.1, pg as int));
                    } else if va + PAGE_SZ == last.0 {
                        addrs[k - 1] = (va, last.1 + PAGE_SZ);
                        merged = true;
                        assert(addrs@ =~= with_page(before.1, pg as int));
                    }
                }
                if !merged {
                    addrs.push((va, PAGE_SZ));
                }
                proof {
                    assert(addrs@ == with_page(before.1, pg as int));
                    assert forall|i: int| 0 <= i < addrs@.len() implies stretch_ok(#[trigger] addrs@[i], len as nat) by {
                        if i < before.1.len() {
                            assert(stretch_ok(before.1[i], len as nat));
                        }
                    }
                }
                acquired += 1;
            },
        }
    }
    addrs
}

/// Sum of the sizes of some stretches.
pub open spec fn stretch_sum(addrs: Seq<(u64, u64)>) -> nat
    decreases addrs.len(),
{
    if addrs.len() == 0 {
        0
    } else {
        stretch_sum(addrs.drop_last()) + addrs.last().1 as nat
    }
}

pub proof fn lemma_free_count_update(slots: Seq<bool>, i: int)
    requires
        0 <= i < slots.len(),
        slots[i],
    ensures
        crate::utils::free_count(slots.update(i, false)) + 1 == crate::utils::free_count(slots),
    decreases slots.len(),
{
    let t = slots.drop_last();
    let u = slots.update(i, false);
    if i == slots.len() - 1 {
        assert(u.drop_last() =~= t);
    } else {
        lemma_free_count_update(t, i);
        assert(u.drop_last() =~= t.update(i, false));
    }
}

pub proof fn lemma_free_count_zero(slots: Seq<bool>)
    ensures
        none_free(slots) <==> crate::utils::free_count(slots) == 0,
    decreases slots.len(),
{
    if slots.len() > 0 {
        let t = slots.drop_last();
        lemma_free_count_zero(t);
        if none_free(slots) {
            assert forall|i: int| 0 <= i < t.len() implies !t[i] by {
                assert(!slots[i]);
            }
        }
        if crate::utils::free_count(slots) == 0 {
            assert forall|i: int| 0 <= i < slots.len() implies !slots[i] by {
                if i < t.len() {
                    assert(!t[i]);
                }
            }
        }
    }
}

proof fn lemma_some_free_from(slots: Seq<bool>, start: int)
    requires
        !none_free(slots),
        0 <= start < slots.len(),
    ensures
        exists|i: int| first_free_from(slots, start, i),
{
    let n = slots.len() as int;
    let i = choose|i: int| 0 <= i < slots.len() && slots[i];
    let k = lemma_round_visits_all(n, start, i);
    lemma_least_free(slots, start, k);
}

proof fn lemma_least_free(slots: Seq<bool>, start: int, k: int)
    requires
        0 <= k < slots.len(),
        slots[round_from(start, k, slots.len() as int)],
    ensures
        exists|i: int| first_free_from(slots, start, i),
    decreases k,
{
    let n = slots.len() as int;
    if forall|j: int| 0 <= j < k ==> !slots[#[trigger] round_from(start, j, n)] {
        assert(first_free_from(slots, start, round_from(start, k, n)));
    } else {
        let j = choose|j: int| 0 <= j < k && slots[#[trigger] round_from(start, j, n)];
        lemma_least_free(slots, start, j);
    }
}

/// Growing the heap takes as many frames as were asked for, or all that were free; the stretches
/// amount to just these.
pub proof fn law_heap_grow_amount(slots: Seq<bool>, n: nat)
    requires
        PHYS_OFF + slots.len() * PAGE_SZ <= u64::MAX,
    ensures
        ({
            let g = heap_grown(slots, n);
            let free = crate::utils::free_count(slots);
            let got = if n < free { n } else { free };
            &&& crate::utils::free_count(g.0) == free - got
            &&& stretch_sum(g.1) == got * PAGE_SZ
        }),
    decreases n,
{
    lemma_heap_ok(slots, n);
    if n > 0 {
        let s = heap_grown(slots, (n - 1) as nat);
        law_heap_grow_amount(slots, (n - 1) as nat);
        lemma_heap_ok(slots, (n - 1) as nat);
        lemma_free_count_zero(s.0);
        if !none_free(s.0) {
            let start = reduced(preferred_page(s.1), s.0.len());
            lemma_some_free_from(s.0, start);
            let pg = found_from(s.0, preferred_page(s.1));
            assert(first_free_from(s.0, start, pg));
            lemma_free_count_update(s.0, pg);
            let a = s.1;
            if a.len() > 0 {
                assert(stretch_ok(a[a.len() - 1], slots.len()));
                assert(with_page(a, pg).drop_last() =~= a || with_page(a, pg).drop_last() =~= a.drop_last());
            } else {
                assert(with_page(a, pg).drop_last() =~= a);
            }
            let w = with_page(a, pg);
            assert(stretch_sum(w) == stretch_sum(w.drop_last()) + w.last().1);
        }
    }
}

/// Page `p` lies in the stretch.
pub open spec fn page_in(r: (u64, u64), p: int) -> bool {
    r.0 <= PHYS_OFF + p * PAGE_SZ < r.0 + r.1
}

/// Page `p` lies in one of the stretches.
pub open spec fn covered(addrs: Seq<(u64, u64)>, p: int) -> bool {
    exists|i: int| 0 <= i < addrs.len() && page_in(#[trigger] addrs[i], p)
}

/// Two stretches have no byte in common.
pub open spec fn clear_of(a: (u64, u64), b: (u64, u64)) -> bool {
    a.0 + a.1 <= b.0 || b.0 + b.1 <= a.0
}

/// Growing the heap returns stretches of whole pages that have no byte in common. Their pages are
/// just those that were free before and are not free any more; no other frame changes.
pub proof fn law_heap_stretches(slots: Seq<bool>, n: nat)
    requires
        PHYS_OFF + slots.len() * PAGE_SZ <= u64::MAX,
    ensures
        ({
            let g = heap_grown(slots, n);
            &&& g.0.len() == slots.len()
            &&& forall|i: int| 0 <= i < g.1.len() ==> stretch_ok(#[trigger] g.1[i], slots.len())
            &&& forall|i: int, j: int| 0 <= i < j < g.1.len() ==> clear_of(#[trigger] g.1[i], #[trigger] g.1[j])
            &&& forall|p: int| 0 <= p < slots.len() ==> (#[trigger] covered(g.1, p) <==> slots[p] && !g.0[p])
            &&& forall|p: int| 0 <= p < slots.len() && !slots[p] ==> !#[trigger] g.0[p]
        }),
    decreases n,
{
    lemma_heap_ok(slots, n);
    if n > 0 {
        law_heap_stretches(slots, (n - 1) as nat);
        let s = heap_grown(slots, (n - 1) as nat);
        if !none_free(s.0) {
            let start = reduced(preferred_page(s.1), s.0.len());
            lemma_some_free_from(s.0, start);
            let pg = found_from(s.0, preferred_page(s.1));
            assert(first_free_from(s.0, start, pg));
            lemma_first_from_free(s.0, start, pg);
            assert(!covered(s.1, pg));
            lemma_page_joined(s.1, pg, slots.len());
            let g = heap_grown(slots, n);
            assert forall|p: int| 0 <= p < slots.len() implies (#[trigger] covered(g.1, p) <==> slots[p] && !g.0[p]) by {
                assert(covered(s.1, p) <==> slots[p] && !s.0[p]);
            }
        }
    }
}

proof fn lemma_first_from_free(slots: Seq<bool>, start: int, i: int)
    requires
        first_free_from(slots, start, i),
        0 <= start,
    ensures
        0 <= i < slots.len(),
        slots[i],
{
    let k = choose|k: int|
        {
            &&& 0 <= k < slots.len()
            &&& i == #[trigger] round_from(start, k, slots.len() as int)
            &&& slots[i]
            &&& forall|j: int| 0 <= j < k ==> !slots[#[trigger] round_from(start, j, slots.len() as int)]
        };
    vstd::arithmetic::div_mod::lemma_mod_bound(start + k, slots.len() as int);
}

/// Adding a page that no stretch has keeps the stretches apart and adds just this page.
proof fn lemma_page_joined(a: Seq<(u64, u64)>, pg: int, len: nat)
    requires
        PHYS_OFF + len * PAGE_SZ <= u64::MAX,
        0 <= pg < len,
        forall|i: int| 0 <= i < a.len() ==> stretch_ok(#[trigger] a[i], len),
        forall|i: int, j: int| 0 <= i < j < a.len() ==> clear_of(#[trigger] a[i], #[trigger] a[j]),
        !covered(a, pg),
    ensures
        ({
            let w = with_page(a, pg);
            &&& forall|i: int, j: int| 0 <= i < j < w.len() ==> clear_of(#[trigger] w[i], #[trigger] w[j])
            &&& forall|p: int| #[trigger] covered(w, p) <==> covered(a, p) || p == pg
        }),
{
    let w = with_page(a, pg);
    let va = PHYS_OFF + pg * PAGE_SZ;
    assert forall|i: int| 0 <= i < a.len() implies #[trigger] clear_of(a[i], (va as u64, PAGE_SZ)) by {
        assert(stretch_ok(a[i], len));
        assert(!page_in(a[i], pg));
    }
    assert forall|i: int, j: int| 0 <= i < j < w.len() implies clear_of(#[trigger] w[i], #[trigger] w[j]) by {
        assert(a[i] == w[i]);
        assert(clear_of(a[i], (va as u64, PAGE_SZ)));
        if j < a.len() {
            assert(clear_of(a[i], a[j]));
        }
        if w.len() == a.len() {
            assert(clear_of(a[i], a[a.len() - 1]));
        }
    }
    assert forall|p: int| #[trigger] covered(w, p) <==> covered(a, p) || p == pg by {
        let last = w.len() - 1;
        if a.len() > 0 {
            assert(stretch_ok(a[a.len() - 1], len));
        }
        if covered(w, p) {
            let i = choose|i: int| 0 <= i < w.len() && page_in(#[trigger] w[i], p);
            if i < last {
                assert(page_in(a[i], p));
            } else if w.len() == a.len() && p != pg {
                assert(page_in(a[last], p));
            }
        }
        if covered(a, p) {
            let i = choose|i: int| 0 <= i < a.len() && page_in(#[trigger] a[i], p);
            assert(page_in(w[i], p));
        }
        if p == pg {
            assert(page_in(w[last], p));
        }
    }
}

proof fn lemma_heap_ok(slots: Seq<bool>, n: nat)
    requires
        PHYS_OFF + slots.len() * PAGE_SZ <= u64::MAX,
    ensures
        ({
            let g = heap_grown(slots, n);
            &&& g.0.len() == slots.len()
            &&& forall|i: int| 0 <= i < g.1.len() ==> stretch_ok(#[trigger] g.1[i], slots.len())
            &&& preferred_page(g.1) >= 0
        }),
    decreases n,
{
    if n > 0 {
        lemma_heap_ok(slots, (n - 1) as nat);
        let s = heap_grown(slots, (n - 1) as nat);
        if !none_free(s.0) {
            let start = reduced(preferred_page(s.1), s.0.len());
            lemma_some_free_from(s.0, start);
            let pg = found_from(s.0, preferred_page(s.1));
            assert(first_free_from(s.0, start, pg));
            let k = choose|k: int|
                {
                    &&& 0 <= k < s.0.len()
                    &&& pg == #[trigger] round_from(start, k, s.0.len() as int)
                    &&& s.0[pg]
                    &&& forall|j: int| 0 <= j < k ==> !s.0[#[trigger] round_from(start, j, s.0.len() as int)]
                };
            vstd::arithmetic::div_mod::lemma_mod_bound(start + k, s.0.len() as int);
            let a = s.1;
            let w = with_page(a, pg);
            assert forall|i: int| 0 <= i < w.len() implies stretch_ok(#[trigger] w[i], slots.len()) by {
                if i < a.len() {
                    assert(stretch_ok(a[i], slots.len()));
                }
            }
            assert(stretch_ok(w[w.len() - 1], slots.len()));
        }
    }
}

// ---------------------------------------------------------------------------------------------
// Buddy allocator
// ---------------------------------------------------------------------------------------------

/// Pages in blocks of powers of two.
pub struct BuddyAllocator {
    /// Addresses of the free blocks of each order.
    pub free_lists: Vec<Vec<u64>>,
    /// Highest order.
    pub max_order: usize,
    /// First address.
    pub base_addr: u64,
    /// Number of pages.
    pub total_pages: u64,
    /// Pages handed out.
    pub allocated: u64,
}

/// Bytes in a block of order `o`.
pub open spec fn block_bytes(o: nat) -> nat {
    pow2(o) * PAGE_SZ as nat
}

/// The free lists as sequences.
pub open spec fn lists_of(v: Seq<Vec<u64>>) -> Seq<Seq<u64>> {
    v.map_values(|l: Vec<u64>| l@)
}

/// Free lists after the block `addr` of order `from` was halved down to order `to`: the upper half
/// of each step is free.
pub open spec fn split_down(lists: Seq<Seq<u64>>, addr: u64, from: nat, to: nat) -> Seq<Seq<u64>>
    decreases from,
{
    if from <= to {
        lists
    } else {
        let o = (from - 1) as nat;
        split_down(lists.update(o as int, lists[o as int].push((addr + block_bytes(o)) as u64)), addr, o, to)
    }
}

/// Order `o` is the lowest from `order` on with a free block.
pub open spec fn lowest_order(lists: Seq<Seq<u64>>, order: nat, o: nat) -> bool {
    &&& order <= o < lists.len()
    &&& lists[o as int].len() > 0
    &&& forall|p: int| order <= p < o ==> (#[trigger] lists[p]).len() == 0
}

/// The address of the other half of the block that `addr` and its buddy of order `o` make up.
pub open spec fn buddy_of(addr: u64, o: nat) -> u64 {
    addr ^ (block_bytes(o) as u64)
}

/// The lower of two addresses.
pub open spec fn lower(a: u64, b: u64) -> u64 {
    if a <= b {
        a
    } else {
        b
    }
}

/// Free lists after the block `addr` of order `o` came back: while its buddy is free the two are
/// joined.
pub open spec fn joined(lists: Seq<Seq<u64>>, addr: u64, o: nat, max: nat) -> Seq<Seq<u64>>
    decreases max - o,
{
    let buddy = buddy_of(addr, o);
    if o < max && lists[o as int].contains(buddy) {
        let i = lists[o as int].index_of_first(buddy)->0;
        joined(lists.update(o as int, lists[o as int].remove(i)), lower(addr, buddy), o + 1, max)
    } else {
        lists.update(o as int, lists[o as int].push(addr))
    }
}

/// Pages in the free blocks of orders below `n`.
pub open spec fn free_pages(lists: Seq<Seq<u64>>, n: nat) -> nat
    decreases n,
{
    if n == 0 {
        0
    } else {
        free_pages(lists, (n - 1) as nat) + lists[n - 1].len() * pow2((n - 1) as nat)
    }
}

/// The highest order with a free block among the first `n`; 0 for none.
pub open spec fn highest_order(lists: Seq<Seq<u64>>, n: nat) -> nat
    decreases n,
{
    if n == 0 {
        0
    } else if lists[n - 1].len() > 0 {
        (n - 1) as nat
    } else {
        highest_order(lists, (n - 1) as nat)
    }
}

/// Blocks from `addr` on, `n` of order `o`.
pub open spec fn block_row(addr: u64, o: nat, n: nat) -> Seq<u64> {
    Seq::new(n, |i: int| (addr + i * block_bytes(o)) as u64)
}

proof fn lemma_block_bytes(o: nat)
    requires
        o <= 51,
    ensures
        0 < block_bytes(o) <= 0x8000_0000_0000_0000,
        block_bytes(o) == pow2(o + 12),
        1u64 << (o as u64) == pow2(o),
        (1u64 << (o as u64)) as int * PAGE_SZ == block_bytes(o),
        o < 51 ==> block_bytes(o + 1) == 2 * block_bytes(o),
{
    crate::utils::lemma_shl_one(o as u64);
    lemma2_to64();
    lemma_pow2_adds(o, 12);
    crate::utils::lemma_shl_one((o + 12) as u64);
    lemma_pow2_unfold((o + 1) as nat);
}

/// The free list of order `o` in a new allocator whose largest blocks have the order `top`.
pub open spec fn initial_list(base: u64, total: u64, top: nat, o: nat) -> Seq<u64> {
    if o == top {
        block_row(base, top, (total as int / pow2(top) as int) as nat)
    } else if o < top && (total as int / pow2(o) as int) % 2 == 1 {
        seq![(base + (total - total as int % pow2(o + 1) as int) * PAGE_SZ) as u64]
    } else {
        Seq::empty()
    }
}

/// The block `addr` of order `o` fits the address space.
pub open spec fn block_fits(o: int, addr: u64) -> bool {
    o <= 51 && addr + block_bytes(o as nat) <= u64::MAX
}

/// Every free block fits the address space.
pub open spec fn blocks_fit(lists: Seq<Seq<u64>>) -> bool {
    forall|o: int, i: int|
        #![trigger lists[o][i]]
        0 <= o < lists.len() && 0 <= i < lists[o].len() ==> block_fits(o, lists[o][i])
}

proof fn lemma_fit_push(lists: Seq<Seq<u64>>, o: int, x: u64)
    requires
        blocks_fit(lists),
        0 <= o < lists.len(),
        block_fits(o, x),
    ensures
        blocks_fit(lists.update(o, lists[o].push(x))),
{
    let next = lists.update(o, lists[o].push(x));
    assert forall|p: int, i: int|
        #![trigger next[p][i]]
        0 <= p < next.len() && 0 <= i < next[p].len() implies block_fits(p, next[p][i]) by {
        if p != o || i < lists[p].len() {
            assert(block_fits(p, lists[p][i]));
        }
    }
}

proof fn lemma_fit_remove(lists: Seq<Seq<u64>>, o: int, k: int)
    requires
        blocks_fit(lists),
        0 <= o < lists.len(),
        0 <= k < lists[o].len(),
    ensures
        blocks_fit(lists.update(o, lists[o].remove(k))),
{
    let next = lists.update(o, lists[o].remove(k));
    assert forall|p: int, i: int|
        #![trigger next[p][i]]
        0 <= p < next.len() && 0 <= i < next[p].len() implies block_fits(p, next[p][i]) by {
        let j = if p == o && i >= k { i + 1 } else { i };
        assert(block_fits(p, lists[p][j]));
    }
}

proof fn lemma_buddy(addr: u64, o: nat)
    requires
        o <= 51,
    ensures
        buddy_of(addr, o) != addr,
        addr <= buddy_of(addr, o) ==> addr + block_bytes(o) == buddy_of(addr, o),
        addr > buddy_of(addr, o) ==> buddy_of(addr, o) + block_bytes(o) == addr,
{
    lemma_block_bytes(o);
    crate::utils::lemma_shl_one((o + 12) as u64);
    let k = (o + 12) as u64;
    let b = block_bytes(o) as u64;
    assert(b == 1u64 << k);
    assert((addr ^ (1u64 << k)) != addr && (addr <= (addr ^ (1u64 << k)) ==> addr + (1u64 << k) == (addr ^ (1u64 << k))) && (addr > (addr
        ^ (1u64 << k)) ==> (addr ^ (1u64 << k)) + (1u64 << k) == addr)) by (bit_vector)
        requires
            k < 64,
    ;
}

proof fn lemma_mod_halves(x: int, p: int)
    requires
        p > 0,
        x >= 0,
    ensures
        x % (2 * p) == (if (x / p) % 2 == 1 { p + x % p } else { x % p }),
        0 <= x % p < p,
{
    vstd::arithmetic::div_mod::lemma_mod_breakdown(x, p, 2);
    vstd::arithmetic::div_mod::lemma_mod_bound(x, p);
    assert(p * 2 == 2 * p);
    let h = (x / p) % 2;
    assert(h == 0 || h == 1);
    assert(p * h == (if h == 1 { p } else { 0 })) by (nonlinear_arith)
        requires
            h == 0 || h == 1,
    ;
}

impl BuddyAllocator {
    /// The free lists.
    pub open spec fn lists(&self) -> Seq<Seq<u64>> {
        lists_of(self.free_lists@)
    }

    /// There is a list for each order, and every free block fits the address space.
    pub open spec fn wf(&self) -> bool {
        &&& self.max_order < 64
        &&& self.free_lists@.len() == self.max_order + 1
        &&& blocks_fit(self.lists())
    }

    /// The order of the largest blocks that a new allocator makes.
    pub open spec fn top_order(total: u64, max_order: usize, top: nat) -> bool {
        ||| total == 0 && top == 0
        ||| total > 0 && (if total as int >= pow2((max_order + 1) as nat) {
            top == max_order
        } else {
            pow2(top) <= total < pow2(top + 1)
        })
    }

    /// An allocator of `total_pages` free pages from `base` on, in blocks as large as they can be.
    pub fn new(base: u64, total_pages: u64, max_order: usize) -> (b: Self)
        requires
            max_order < 64,
            base + total_pages * PAGE_SZ <= u64::MAX,
        ensures
            b.wf(),
            b.max_order == max_order,
            b.base_addr == base,
            b.total_pages == total_pages,
            b.allocated == 0,
            exists|top: nat|
                #[trigger] Self::top_order(total_pages, max_order, top) && b.lists() == initial_lists(
                    base,
                    total_pages,
                    top,
                    max_order as nat,
                ),
    {
        let mut free_lists: Vec<Vec<u64>> = Vec::new();
        let mut k: usize = 0;
        while k <= max_order
            invariant
                max_order < 64,
                k <= max_order + 1,
                free_lists@.len() == k,
                forall|o: int| 0 <= o < k ==> (#[trigger] free_lists@[o])@ == Seq::<u64>::empty(),
            decreases max_order + 1 - k,
        {
            free_lists.push(Vec::new());
            k += 1;
        }
        let order: u64 = log2_floor(total_pages);
        let top: usize = if order < max_order as u64 {
            order as usize
        } else {
            max_order
        };
        proof {
            lemma_pow2_pos(top as nat);
            if total_pages > 0 {
                if order > max_order {
                    if max_order + 1 < order {
                        lemma_pow2_strictly_increases((max_order + 1) as nat, order as nat);
                    }
                } else if order == max_order {
                } else {
                    if order + 1 < max_order + 1 {
                        lemma_pow2_strictly_increases((order + 1) as nat, (max_order + 1) as nat);
                    }
                }
                assert(Self::top_order(total_pages, max_order, top as nat));
                if top < order {
                    lemma_pow2_strictly_increases(top as nat, order as nat);
                }
                assert(pow2(top as nat) <= total_pages);
                if top > 51 {
                    lemma2_to64_rest();
                    if top > 52 {
                        lemma_pow2_strictly_increases(52, top as nat);
                    }
                    assert(false) by (nonlinear_arith)
                        requires
                            total_pages >= 0x10_0000_0000_0000,
                            base + total_pages * PAGE_SZ <= u64::MAX,
                            PAGE_SZ == 4096,
                    ;
                }
            } else {
                lemma2_to64();
            }
            lemma_block_bytes(top as nat);
        }
        let block_pages: u64 = 1u64 << (top as u64);
        let mut addr: u64 = base;
        let mut remaining: u64 = total_pages;
        let ghost total = total_pages as int;
        let ghost p = pow2(top as nat) as int;
        let ghost mut cnt: int = 0;
        while remaining >= block_pages
            invariant
                top <= 51,
                top <= max_order,
                max_order < 64,
                free_lists@.len() == max_order + 1,
                block_pages == p,
                p == pow2(top as nat),
                p > 0,
                p * PAGE_SZ == block_bytes(top as nat),
                base + total_pages * PAGE_SZ <= u64::MAX,
                total == total_pages,
                cnt >= 0,
                remaining == total - cnt * p,
                remaining >= 0,
                addr == base + (cnt * p) * PAGE_SZ,
                free_lists@[top as int]@ == block_row(base, top as nat, cnt as nat),
                forall|o: int| 0 <= o <= max_order && o != top ==> (#[trigger] free_lists@[o])@ == Seq::<u64>::empty(),
            decreases remaining,
        {
            let ghost before = free_lists@;
            assert((cnt + 1) * p == cnt * p + p) by (nonlinear_arith);
            assert((cnt * p + p) * PAGE_SZ == (cnt * p) * PAGE_SZ + p * PAGE_SZ) by (nonlinear_arith);
            assert((cnt * p + p) * PAGE_SZ <= total * PAGE_SZ) by (nonlinear_arith)
                requires
                    cnt * p + p <= total,
            ;
            assert((cnt * p) * PAGE_SZ == cnt * (p * PAGE_SZ)) by (nonlinear_arith);
            free_lists[top].push(addr);
            assert(free_lists@[top as int]@ =~= block_row(base, top as nat, (cnt + 1) as nat));
            addr = addr + block_pages * PAGE_SZ;
            remaining = remaining - block_pages;
            proof {
                cnt = cnt + 1;
                assert forall|o: int| 0 <= o <= max_order && o != top implies (#[trigger] free_lists@[o])@ == Seq::<u64>::empty() by {
                    assert(free_lists@[o] == before[o]);
                }
            }
        }
        proof {
            vstd::arithmetic::div_mod::lemma_fundamental_div_mod_converse(total, p, cnt, remaining as int);
            assert(cnt * p == p * cnt) by (nonlinear_arith);
        }
        let mut o: usize = top;
        while o > 0
            invariant
                o <= top <= 51,
                top <= max_order,
                max_order < 64,
                free_lists@.len() == max_order + 1,
                base + total_pages * PAGE_SZ <= u64::MAX,
                total == total_pages,
                remaining == total % pow2(o as nat) as int,
                addr == base + (total - remaining) * PAGE_SZ,
                forall|q: int|
                    0 <= q <= max_order ==> (#[trigger] free_lists@[q])@ == (if q >= o {
                        initial_list(base, total_pages, top as nat, q as nat)
                    } else {
                        Seq::<u64>::empty()
                    }),
            decreases o,
        {
            let ghost before = free_lists@;
            o = o - 1;
            proof {
                lemma_block_bytes(o as nat);
                lemma_pow2_unfold((o + 1) as nat);
                lemma_mod_halves(total, pow2(o as nat) as int);
            }
            let pages: u64 = 1u64 << (o as u64);
            let ghost high = remaining as int;
            if remaining >= pages {
                proof {
                    let r = remaining as int;
                    let g = pages as int;
                    assert((total - r) * PAGE_SZ + g * PAGE_SZ == (total - (r - g)) * PAGE_SZ) by (nonlinear_arith);
                    assert((total - (r - g)) * PAGE_SZ <= total * PAGE_SZ) by (nonlinear_arith)
                        requires
                            r - g >= 0,
                    ;
                }
                free_lists[o].push(addr);
                addr = addr + pages * PAGE_SZ;
                remaining = remaining - pages;
            }
            proof {
                assert forall|q: int| 0 <= q <= max_order implies (#[trigger] free_lists@[q])@ == (if q >= o {
                    initial_list(base, total_pages, top as nat, q as nat)
                } else {
                    Seq::<u64>::empty()
                }) by {
                    if q != o {
                        assert(free_lists@[q] == before[q]);
                    } else {
                        assert(before[q]@ == Seq::<u64>::empty());
                        assert(free_lists@[q]@ =~= initial_list(base, total_pages, top as nat, q as nat));
                    }
                }
            }
        }
        let b = BuddyAllocator { free_lists, max_order, base_addr: base, total_pages, allocated: 0 };
        proof {
            assert(b.lists() =~= initial_lists(base, total_pages, top as nat, max_order as nat));
            assert(Self::top_order(total_pages, max_order, top as nat));
            lemma_initial_fits(base, total_pages, top as nat, max_order);
        }
        b
    }
}

proof fn lemma_initial_fits(base: u64, total: u64, top: nat, max_order: usize)
    requires
        top <= 51,
        base + total * PAGE_SZ <= u64::MAX,
    ensures
        blocks_fit(initial_lists(base, total, top, max_order as nat)),
{
    let lists = initial_lists(base, total, top, max_order as nat);
    assert forall|o: int, i: int|
        #![trigger lists[o][i]]
        0 <= o < lists.len() && 0 <= i < lists[o].len() implies block_fits(o, lists[o][i]) by {
        lemma_block_bytes(o as nat);
        let p = pow2(o as nat) as int;
        let t = total as int;
        if o == top {
            let c = t / p;
            vstd::arithmetic::div_mod::lemma_fundamental_div_mod(t, p);
            vstd::arithmetic::div_mod::lemma_mod_bound(t, p);
            assert(i * (p * PAGE_SZ) + p * PAGE_SZ <= t * PAGE_SZ) by (nonlinear_arith)
                requires
                    0 <= i < c,
                    p * c <= t,
                    p > 0,
            ;
            assert(block_bytes(o as nat) == p * PAGE_SZ);
            assert(lists[o][i] == (base + i * block_bytes(o as nat)) as u64);
        } else {
            lemma_pow2_unfold((o + 1) as nat);
            lemma_mod_halves(t, p);
            let r = t % pow2((o + 1) as nat) as int;
            vstd::arithmetic::div_mod::lemma_mod_bound(t, 2 * p);
            vstd::arithmetic::div_mod::lemma_mod_decreases(total as nat, (2 * p) as nat);
            assert(0 <= (t - r) * PAGE_SZ && (t - r) * PAGE_SZ + p * PAGE_SZ <= t * PAGE_SZ) by (nonlinear_arith)
                requires
                    p <= r <= t,
            ;
            assert(i == 0);
            assert(lists[o][0] == (base + (t - r) * PAGE_SZ) as u64);
        }
    }
}

impl BuddyAllocator {
    /// Takes a block of `order`, split off the smallest free block that is large enough.
    pub fn alloc_order(&mut self, order: usize) -> (r: Option<u64>)
        requires
            old(self).wf(),
        ensures
            final(self).wf(),
            final(self).max_order == old(self).max_order,
            final(self).base_addr == old(self).base_addr,
            final(self).total_pages == old(self).total_pages,
            r is None <==> forall|o: int| order <= o <= old(self).max_order ==> (#[trigger] old(self).lists()[o]).len() == 0,
            r is None ==> final(self).lists() == old(self).lists() && final(self).allocated == old(self).allocated,
            r matches Some(addr) ==> {
                &&& order <= 51
                &&& final(self).allocated == old(self).allocated.wrapping_add(pow2(order as nat) as u64)
                &&& exists|o: nat|
                    {
                        &&& #[trigger] lowest_order(old(self).lists(), order as nat, o)
                        &&& addr == old(self).lists()[o as int].last()
                        &&& final(self).lists() == split_down(
                            old(self).lists().update(o as int, old(self).lists()[o as int].drop_last()),
                            addr,
                            o,
                            order as nat,
                        )
                    }
            },
    {
        if order > self.max_order {
            return None;
        }
        let ghost lists = self.lists();
        let mut o: usize = order;
        while o <= self.max_order
            invariant
                *self == *old(self),
                self.wf(),
                lists == self.lists(),
                order <= o <= self.max_order + 1,
                forall|p: int| order <= p < o ==> (#[trigger] lists[p]).len() == 0,
            decreases self.max_order + 1 - o,
        {
            assert(lists[o as int] == self.free_lists@[o as int]@);
            let n = self.free_lists[o].len();
            if n > 0 {
                let block: u64 = self.free_lists[o][n - 1];
                let _popped = self.free_lists[o].pop();
                let ghost start = lists.update(o as int, lists[o as int].drop_last());
                proof {
                    assert(lists[o as int][n - 1] == block);
                    assert(self.lists() =~= start);
                    assert(lowest_order(lists, order as nat, o as nat));
                    assert(block_fits(o as int, lists[o as int][n - 1]));
                    lemma_fit_remove(lists, o as int, n - 1);
                    assert(lists[o as int].remove(n - 1) =~= lists[o as int].drop_last());
                    lemma_split_fits(start, block, o as nat, order as nat);
                }
                let mut cur: usize = o;
                while cur > order
                    invariant
                        order <= cur <= o <= 51,
                        o < lists.len(),
                        self.max_order == old(self).max_order,
                        self.base_addr == old(self).base_addr,
                        self.total_pages == old(self).total_pages,
                        self.allocated == old(self).allocated,
                        self.free_lists@.len() == lists.len(),
                        block + block_bytes(o as nat) <= u64::MAX,
                        split_down(start, block, o as nat, order as nat) == split_down(self.lists(), block, cur as nat, order as nat),
                    decreases cur,
                {
                    let ghost before = self.lists();
                    cur = cur - 1;
                    proof {
                        lemma_block_bytes(cur as nat);
                        lemma_block_bytes(o as nat);
                        lemma_pow2_strictly_increases((cur + 12) as nat, (o + 12) as nat);
                    }
                    let buddy: u64 = block + (1u64 << (cur as u64)) * PAGE_SZ;
                    self.free_lists[cur].push(buddy);
                    assert(self.lists() =~= before.update(cur as int, before[cur as int].push(buddy)));
                }
                proof {
                    crate::utils::lemma_shl_one(order as u64);
                }
                self.allocated = self.allocated.wrapping_add(1u64 << (order as u64));
                return Some(block);
            }
            o += 1;
        }
        None
    }

    /// Gives the block `addr` of `order` back; while its buddy is free too the two are joined.
    /// An order that the allocator does not have is ignored.
    pub fn free_order(&mut self, addr: u64, order: usize)
        requires
            old(self).wf(),
            order <= old(self).max_order ==> order <= 51 && addr + block_bytes(order as nat) <= u64::MAX,
        ensures
            final(self).wf(),
            final(self).max_order == old(self).max_order,
            final(self).base_addr == old(self).base_addr,
            final(self).total_pages == old(self).total_pages,
            order > old(self).max_order ==> *final(self) == *old(self),
            order <= old(self).max_order ==> {
                &&& final(self).lists() == joined(old(self).lists(), addr, order as nat, old(self).max_order as nat)
                &&& final(self).allocated == old(self).allocated.wrapping_sub(pow2(order as nat) as u64)
            },
    {
        if order > self.max_order {
            return ;
        }
        let ghost lists = self.lists();
        let ghost max = self.max_order as nat;
        let mut cur_addr: u64 = addr;
        let mut cur: usize = order;
        let mut going = true;
        while going && cur < self.max_order
            invariant
                self.wf(),
                self.max_order == old(self).max_order,
                self.base_addr == old(self).base_addr,
                self.total_pages == old(self).total_pages,
                self.allocated == old(self).allocated,
                max == self.max_order,
                order <= cur <= self.max_order,
                cur <= 51,
                cur_addr + block_bytes(cur as nat) <= u64::MAX,
                joined(lists, addr, order as nat, max) == joined(self.lists(), cur_addr, cur as nat, max),
                !going ==> !self.lists()[cur as int].contains(buddy_of(cur_addr, cur as nat)),
            decreases self.max_order - cur + (if going { 1int } else { 0int }),
        {
            let ghost before = self.lists();
            proof {
                lemma_block_bytes(cur as nat);
                lemma_buddy(cur_addr, cur as nat);
                assert(before[cur as int] == self.free_lists@[cur as int]@);
            }
            let size: u64 = (1u64 << (cur as u64)) * PAGE_SZ;
            let buddy: u64 = cur_addr ^ size;
            match find_u64(&self.free_lists[cur], buddy) {
                Some(pos) => {
                    let _gone: u64 = self.free_lists[cur].remove(pos);
                    proof {
                        assert(block_fits(cur as int, before[cur as int][pos as int]));
                        assert(self.lists() =~= before.update(cur as int, before[cur as int].remove(pos as int)));
                        assert(before[cur as int].contains(buddy));
                        assert(before[cur as int].index_of_first(buddy) == Some(pos as int));
                        if cur == 51 {
                            lemma2_to64_rest();
                            assert(block_bytes(51) == 0x8000_0000_0000_0000);
                            assert(false);
                        }
                        lemma_fit_remove(before, cur as int, pos as int);
                    }
                    if buddy < cur_addr {
                        cur_addr = buddy;
                    }
                    cur += 1;
                },
                None => {
                    going = false;
                },
            }
        }
        let ghost before = self.lists();
        assert(before[cur as int] == self.free_lists@[cur as int]@);
        self.free_lists[cur].push(cur_addr);
        proof {
            assert(self.lists() =~= before.update(cur as int, before[cur as int].push(cur_addr)));
            crate::utils::lemma_shl_one(order as u64);
            lemma_fit_push(before, cur as int, cur_addr);
        }
        self.allocated = self.allocated.wrapping_sub(1u64 << (order as u64));
    }

    /// Pages in all free blocks.
    pub fn free_pages_count(&self) -> (n: u64)
        requires
            self.wf(),
            free_pages(self.lists(), self.lists().len()) <= u64::MAX,
        ensures
            n == free_pages(self.lists(), self.lists().len()),
    {
        let mut n: u64 = 0;
        let mut o: usize = 0;
        while o < self.free_lists.len()
            invariant
                self.wf(),
                o <= self.free_lists@.len(),
                free_pages(self.lists(), self.lists().len()) <= u64::MAX,
                n == free_pages(self.lists(), o as nat),
            decreases self.free_lists@.len() - o,
        {
            proof {
                lemma_free_pages_mono(self.lists(), (o + 1) as nat, self.lists().len());
                crate::utils::lemma_shl_one(o as u64);
                assert(self.lists()[o as int] == self.free_lists@[o as int]@);
            }
            n = n + self.free_lists[o].len() as u64 * (1u64 << (o as u64));
            o += 1;
        }
        n
    }

    /// The highest order with a free block; 0 for none.
    pub fn largest_free_order(&self) -> (o: usize)
        requires
            self.wf(),
        ensures
            o == highest_order(self.lists(), self.lists().len()),
    {
        let mut o: usize = self.free_lists.len();
        while o > 0
            invariant
                o <= self.free_lists@.len(),
                highest_order(self.lists(), self.lists().len()) == highest_order(self.lists(), o as nat),
            decreases o,
        {
            o -= 1;
            assert(self.lists()[o as int] == self.free_lists@[o as int]@);
            if self.free_lists[o].len() > 0 {
                return o;
            }
        }
        0
    }

    /// How much of the free memory lies outside one block of the largest size, in percent.
    pub fn fragmentation_score(&self) -> (p: u64)
        requires
            self.wf(),
            free_pages(self.lists(), self.lists().len()) * 100 <= u64::MAX,
        ensures
            ({
                let total = free_pages(self.lists(), self.lists().len());
                let largest = pow2(highest_order(self.lists(), self.lists().len()));
                p == (if total <= largest { 0 } else { ((total - largest) * 100) / total as int })
            }),
    {
        let total: u64 = self.free_pages_count();
        let o = self.largest_free_order();
        proof {
            lemma_highest_bound(self.lists(), self.lists().len());
            crate::utils::lemma_shl_one(o as u64);
            lemma_pow2_pos(o as nat);
        }
        if total == 0 {
            return 0;
        }
        let largest: u64 = 1u64 << (o as u64);
        if total <= largest {
            return 0;
        }
        ((total - largest) * 100) / total
    }

    /// A copy of the allocator.
    pub fn snapshot(&self) -> (b: BuddyAllocator)
        requires
            self.wf(),
        ensures
            b.wf(),
            b.lists() == self.lists(),
            b.max_order == self.max_order,
            b.base_addr == self.base_addr,
            b.total_pages == self.total_pages,
            b.allocated == self.allocated,
    {
        let mut free_lists: Vec<Vec<u64>> = Vec::new();
        let mut o: usize = 0;
        while o < self.free_lists.len()
            invariant
                o <= self.free_lists@.len(),
                free_lists@.len() == o,
                lists_of(free_lists@) == self.lists().take(o as int),
            decreases self.free_lists@.len() - o,
        {
            let mut list: Vec<u64> = Vec::new();
            list.extend_from_slice(self.free_lists[o].as_slice());
            assert(list@ =~= self.free_lists@[o as int]@);
            let ghost before = free_lists@;
            let ghost all = self.lists();
            free_lists.push(list);
            proof {
                assert(lists_of(free_lists@) =~= lists_of(before).push(all[o as int]));
                assert(all.take(o as int).push(all[o as int]) =~= all.take(o + 1));
            }
            o += 1;
        }
        assert(self.lists().take(o as int) =~= self.lists());
        BuddyAllocator {
            free_lists,
            max_order: self.max_order,
            base_addr: self.base_addr,
            total_pages: self.total_pages,
            allocated: self.allocated,
        }
    }
}

/// Where `x` first stands in `v`.
fn find_u64(v: &Vec<u64>, x: u64) -> (r: Option<usize>)
    ensures
        r is Some <==> v@.contains(x),
        r matches Some(i) ==> i < v@.len() && v@[i as int] == x && v@.index_of_first(x) == Some(i as int),
{
    let mut i: usize = 0;
    while i < v.len()
        invariant
            i <= v@.len(),
            forall|j: int| 0 <= j < i ==> v@[j] != x,
        decreases v@.len() - i,
    {
        if v[i] == x {
            proof {
                v@.index_of_first_ensures(x);
            }
            return Some(i);
        }
        i += 1;
    }
    None
}

proof fn lemma_split_fits(lists: Seq<Seq<u64>>, addr: u64, from: nat, to: nat)
    requires
        blocks_fit(lists),
        from < lists.len(),
        from <= 51,
        addr + block_bytes(from) <= u64::MAX,
    ensures
        blocks_fit(split_down(lists, addr, from, to)),
        split_down(lists, addr, from, to).len() == lists.len(),
    decreases from,
{
    if from > to {
        let o = (from - 1) as nat;
        lemma_block_bytes(o);
        let next = lists.update(o as int, lists[o as int].push((addr + block_bytes(o)) as u64));
        lemma_fit_push(lists, o as int, (addr + block_bytes(o)) as u64);
        lemma_split_fits(next, addr, o, to);
    }
}

proof fn lemma_free_pages_mono(lists: Seq<Seq<u64>>, m: nat, n: nat)
    requires
        m <= n <= lists.len(),
    ensures
        free_pages(lists, m) <= free_pages(lists, n),
    decreases n,
{
    if m < n {
        lemma_free_pages_mono(lists, m, (n - 1) as nat);
        assert(lists[n - 1].len() * pow2((n - 1) as nat) >= 0) by (nonlinear_arith);
    }
}

proof fn lemma_highest_bound(lists: Seq<Seq<u64>>, n: nat)
    ensures
        highest_order(lists, n) == 0 || highest_order(lists, n) < n,
    decreases n,
{
    if n > 0 && lists[n - 1].len() == 0 {
        lemma_highest_bound(lists, (n - 1) as nat);
    }
}

proof fn lemma_pages_update(lists: Seq<Seq<u64>>, o: nat, l: Seq<u64>, n: nat)
    requires
        o < lists.len(),
        n <= lists.len(),
    ensures
        free_pages(lists.update(o as int, l), n) == free_pages(lists, n) + (if o < n {
            (l.len() - lists[o as int].len()) * pow2(o)
        } else {
            0
        }),
    decreases n,
{
    if n > 0 {
        lemma_pages_update(lists, o, l, (n - 1) as nat);
        if o == n - 1 {
            let a = l.len() as int;
            let b = lists[o as int].len() as int;
            let p = pow2(o) as int;
            assert((a - b) * p == a * p - b * p) by (nonlinear_arith);
        }
    }
}

proof fn lemma_pages_push(lists: Seq<Seq<u64>>, o: nat, x: u64)
    requires
        o < lists.len(),
    ensures
        free_pages(lists.update(o as int, lists[o as int].push(x)), lists.len()) == free_pages(lists, lists.len()) + pow2(o),
{
    lemma_pages_update(lists, o, lists[o as int].push(x), lists.len());
    assert(1 * pow2(o) == pow2(o));
}

proof fn lemma_pages_drop(lists: Seq<Seq<u64>>, o: nat, l: Seq<u64>)
    requires
        o < lists.len(),
        l.len() + 1 == lists[o as int].len(),
    ensures
        free_pages(lists.update(o as int, l), lists.len()) == free_pages(lists, lists.len()) - pow2(o),
{
    lemma_pages_update(lists, o, l, lists.len());
    let p = pow2(o) as int;
    assert(-1 * p == -p);
}

proof fn lemma_split_pages(lists: Seq<Seq<u64>>, addr: u64, from: nat, to: nat)
    requires
        to <= from < lists.len(),
    ensures
        free_pages(split_down(lists, addr, from, to), lists.len()) == free_pages(lists, lists.len()) + pow2(from) - pow2(to),
    decreases from,
{
    if from > to {
        let o = (from - 1) as nat;
        let x = (addr + block_bytes(o)) as u64;
        let next = lists.update(o as int, lists[o as int].push(x));
        lemma_pages_push(lists, o, x);
        lemma_split_pages(next, addr, o, to);
        lemma_pow2_unfold(from);
    }
}

/// Taking a block of an order takes just its pages off the free ones.
pub proof fn law_alloc_conserves(lists: Seq<Seq<u64>>, order: nat, o: nat)
    requires
        lowest_order(lists, order, o),
    ensures
        free_pages(
            split_down(lists.update(o as int, lists[o as int].drop_last()), lists[o as int].last(), o, order),
            lists.len(),
        ) == free_pages(lists, lists.len()) - pow2(order),
{
    let start = lists.update(o as int, lists[o as int].drop_last());
    lemma_pages_drop(lists, o, lists[o as int].drop_last());
    lemma_split_pages(start, lists[o as int].last(), o, order);
}

/// Giving a block of an order back adds just its pages to the free ones, however far it is joined
/// with others.
pub proof fn law_free_conserves(lists: Seq<Seq<u64>>, addr: u64, o: nat, max: nat)
    requires
        o <= max,
        max < lists.len(),
    ensures
        free_pages(joined(lists, addr, o, max), lists.len()) == free_pages(lists, lists.len()) + pow2(o),
    decreases max - o,
{
    let buddy = buddy_of(addr, o);
    if o < max && lists[o as int].contains(buddy) {
        let l = lists[o as int];
        l.index_of_first_ensures(buddy);
        let i = l.index_of_first(buddy)->0;
        lemma_pages_drop(lists, o, l.remove(i));
        law_free_conserves(lists.update(o as int, l.remove(i)), lower(addr, buddy), o + 1, max);
        lemma_pow2_unfold((o + 1) as nat);
    } else {
        lemma_pages_push(lists, o, addr);
    }
}

/// Two blocks share no address.
pub open spec fn apart(a: u64, o: nat, b: u64, p: nat) -> bool {
    a + block_bytes(o) <= b || b + block_bytes(p) <= a
}

/// The block `addr` of order `o` shares no address with any free block.
pub open spec fn apart_from_all(lists: Seq<Seq<u64>>, addr: u64, o: nat) -> bool {
    forall|p: int, i: int|
        #![trigger lists[p][i]]
        0 <= p < lists.len() && 0 <= i < lists[p].len() ==> apart(addr, o, lists[p][i], p as nat)
}

/// No two free blocks share an address.
pub open spec fn disjoint(lists: Seq<Seq<u64>>) -> bool {
    forall|p: int, i: int, q: int, j: int|
        #![trigger lists[p][i], lists[q][j]]
        0 <= p < lists.len() && 0 <= i < lists[p].len() && 0 <= q < lists.len() && 0 <= j < lists[q].len() && (p != q || i != j)
            ==> apart(lists[p][i], p as nat, lists[q][j], q as nat)
}

proof fn lemma_disjoint_push(lists: Seq<Seq<u64>>, o: nat, x: u64)
    requires
        disjoint(lists),
        o < lists.len(),
        apart_from_all(lists, x, o),
    ensures
        disjoint(lists.update(o as int, lists[o as int].push(x))),
{
    let next = lists.update(o as int, lists[o as int].push(x));
    assert forall|p: int, i: int, q: int, j: int|
        #![trigger next[p][i], next[q][j]]
        0 <= p < next.len() && 0 <= i < next[p].len() && 0 <= q < next.len() && 0 <= j < next[q].len() && (p != q || i != j) implies apart(
        next[p][i],
        p as nat,
        next[q][j],
        q as nat,
    ) by {
        let new_p = p == o && i == lists[p].len();
        let new_q = q == o && j == lists[q].len();
        if new_p && !new_q {
            assert(apart(x, o, lists[q][j], q as nat));
        } else if new_q && !new_p {
            assert(apart(x, o, lists[p][i], p as nat));
        } else if !new_p && !new_q {
            assert(apart(lists[p][i], p as nat, lists[q][j], q as nat));
        }
    }
}

proof fn lemma_disjoint_remove(lists: Seq<Seq<u64>>, o: nat, k: int)
    requires
        disjoint(lists),
        o < lists.len(),
        0 <= k < lists[o as int].len(),
    ensures
        disjoint(lists.update(o as int, lists[o as int].remove(k))),
        apart_from_all(lists.update(o as int, lists[o as int].remove(k)), lists[o as int][k], o),
{
    let next = lists.update(o as int, lists[o as int].remove(k));
    assert forall|p: int, i: int, q: int, j: int|
        #![trigger next[p][i], next[q][j]]
        0 <= p < next.len() && 0 <= i < next[p].len() && 0 <= q < next.len() && 0 <= j < next[q].len() && (p != q || i != j) implies apart(
        next[p][i],
        p as nat,
        next[q][j],
        q as nat,
    ) by {
        let i1 = if p == o && i >= k { i + 1 } else { i };
        let j1 = if q == o && j >= k { j + 1 } else { j };
        assert(apart(lists[p][i1], p as nat, lists[q][j1], q as nat));
    }
    assert forall|p: int, i: int|
        #![trigger next[p][i]]
        0 <= p < next.len() && 0 <= i < next[p].len() implies apart(lists[o as int][k], o, next[p][i], p as nat) by {
        let i1 = if p == o && i >= k { i + 1 } else { i };
        assert(apart(lists[o as int][k], o, lists[p][i1], p as nat));
    }
}

proof fn lemma_split_disjoint(lists: Seq<Seq<u64>>, addr: u64, from: nat, to: nat)
    requires
        disjoint(lists),
        to <= from < lists.len(),
        from <= 51,
        addr + block_bytes(from) <= u64::MAX,
        apart_from_all(lists, addr, from),
    ensures
        disjoint(split_down(lists, addr, from, to)),
        apart_from_all(split_down(lists, addr, from, to), addr, to),
    decreases from,
{
    if from > to {
        let o = (from - 1) as nat;
        lemma_block_bytes(o);
        let x = (addr + block_bytes(o)) as u64;
        assert forall|p: int, i: int|
            #![trigger lists[p][i]]
            0 <= p < lists.len() && 0 <= i < lists[p].len() implies apart(x, o, lists[p][i], p as nat) && apart(
            addr,
            o,
            lists[p][i],
            p as nat,
        ) by {
            assert(apart(addr, from, lists[p][i], p as nat));
        }
        lemma_disjoint_push(lists, o, x);
        let next = lists.update(o as int, lists[o as int].push(x));
        assert forall|p: int, i: int|
            #![trigger next[p][i]]
            0 <= p < next.len() && 0 <= i < next[p].len() implies apart(addr, o, next[p][i], p as nat) by {
            if p != o || i < lists[p].len() {
                assert(apart(addr, o, lists[p][i], p as nat));
            }
        }
        lemma_split_disjoint(next, addr, o, to);
    }
}

/// A block that is handed out shares no address with any block that stays free, and those stay
/// disjoint.
pub proof fn law_alloc_disjoint(lists: Seq<Seq<u64>>, order: nat, o: nat)
    requires
        disjoint(lists),
        blocks_fit(lists),
        lowest_order(lists, order, o),
    ensures
        ({
            let addr = lists[o as int].last();
            let after = split_down(lists.update(o as int, lists[o as int].drop_last()), addr, o, order);
            &&& disjoint(after)
            &&& apart_from_all(after, addr, order)
        }),
{
    let l = lists[o as int];
    let k = l.len() - 1;
    assert(block_fits(o as int, lists[o as int][k]));
    lemma_disjoint_remove(lists, o, k);
    assert(l.remove(k) =~= l.drop_last());
    lemma_split_disjoint(lists.update(o as int, l.drop_last()), l.last(), o, order);
}

/// Giving back a block that shares no address with the free ones leaves the free ones disjoint.
pub proof fn law_free_disjoint(lists: Seq<Seq<u64>>, addr: u64, o: nat, max: nat)
    requires
        disjoint(lists),
        blocks_fit(lists),
        o <= max,
        max < lists.len(),
        block_fits(o as int, addr),
        apart_from_all(lists, addr, o),
    ensures
        disjoint(joined(lists, addr, o, max)),
    decreases max - o,
{
    let buddy = buddy_of(addr, o);
    if o < max && lists[o as int].contains(buddy) {
        let l = lists[o as int];
        l.index_of_first_ensures(buddy);
        let i = l.index_of_first(buddy)->0;
        let next = lists.update(o as int, l.remove(i));
        lemma_block_bytes(o);
        lemma_buddy(addr, o);
        assert(block_fits(o as int, lists[o as int][i]));
        lemma_disjoint_remove(lists, o, i);
        lemma_fit_remove(lists, o as int, i);
        if o == 51 {
            lemma2_to64_rest();
            assert(block_bytes(51) == 0x8000_0000_0000_0000);
            assert(false);
        }
        let low = lower(addr, buddy);
        assert forall|p: int, x: int|
            #![trigger next[p][x]]
            0 <= p < next.len() && 0 <= x < next[p].len() implies apart(low, o + 1, next[p][x], p as nat) by {
            let x1 = if p == o && x >= i { x + 1 } else { x };
            assert(apart(addr, o, lists[p][x1], p as nat));
            assert(apart(buddy, o, next[p][x], p as nat));
            lemma_pow2_pos(p as nat);
        }
        law_free_disjoint(next, low, o + 1, max);
    } else {
        lemma_disjoint_push(lists, o, addr);
    }
}

/// The free lists of a new allocator.
pub open spec fn initial_lists(base: u64, total: u64, top: nat, max_order: nat) -> Seq<Seq<u64>> {
    Seq::new(max_order + 1, |o: int| initial_list(base, total, top, o as nat))
}

proof fn lemma_initial_pages(base: u64, total: u64, top: nat, max_order: nat, n: nat)
    requires
        top <= max_order,
        n <= max_order + 1,
    ensures
        free_pages(initial_lists(base, total, top, max_order), n) == (if n <= top {
            total as int % pow2(n) as int
        } else {
            total as int
        }),
    decreases n,
{
    let lists = initial_lists(base, total, top, max_order);
    let t = total as int;
    lemma2_to64();
    if n > 0 {
        let o = (n - 1) as nat;
        lemma_initial_pages(base, total, top, max_order, o);
        lemma_pow2_pos(o);
        lemma_pow2_unfold(n);
        let p = pow2(o) as int;
        assert(lists[o as int] == initial_list(base, total, top, o));
        if o < top {
            lemma_mod_halves(t, p);
            assert(1 * p == p && 0 * p == 0);
        } else if o == top {
            vstd::arithmetic::div_mod::lemma_fundamental_div_mod(t, p);
            assert((t / p) * p == p * (t / p)) by (nonlinear_arith);
            vstd::arithmetic::div_mod::lemma_div_pos_is_pos(t, p);
        } else {
            assert(0 * p == 0);
        }
    }
}

/// Address range of the block of order `o` in a new allocator: it lies between what is left below
/// the next order and what is left below its own.
proof fn lemma_initial_place(base: u64, total: u64, top: nat, o: nat, i: int)
    requires
        o <= top <= 51,
        base + total * PAGE_SZ <= u64::MAX,
        0 <= i < initial_list(base, total, top, o).len(),
    ensures
        ({
            let a = initial_list(base, total, top, o)[i];
            &&& a + block_bytes(o) <= base + (total - total as int % pow2(o) as int) * PAGE_SZ
            &&& o < top ==> i == 0 && a == base + (total - total as int % pow2(o + 1) as int) * PAGE_SZ
            &&& o == top ==> a == base + i * block_bytes(o)
        }),
{
    let t = total as int;
    let p = pow2(o) as int;
    lemma_block_bytes(o);
    vstd::arithmetic::div_mod::lemma_fundamental_div_mod(t, p);
    vstd::arithmetic::div_mod::lemma_mod_bound(t, p);
    if o == top {
        let c = t / p;
        assert(i * (p * PAGE_SZ) + p * PAGE_SZ <= (t - t % p) * PAGE_SZ && (t - t % p) * PAGE_SZ <= t * PAGE_SZ) by (nonlinear_arith)
            requires
                0 <= i < c,
                p * c == t - t % p,
                t % p >= 0,
                p > 0,
        ;
    } else {
        lemma_pow2_unfold((o + 1) as nat);
        lemma_mod_halves(t, p);
        let r = t % (2 * p);
        vstd::arithmetic::div_mod::lemma_mod_decreases(total as nat, (2 * p) as nat);
        assert(0 <= (t - r) * PAGE_SZ && (t - r) * PAGE_SZ + p * PAGE_SZ == (t - (r - p)) * PAGE_SZ && (t - r) * PAGE_SZ <= t * PAGE_SZ)
            by (nonlinear_arith)
            requires
                0 <= p <= r <= t,
        ;
    }
}

proof fn lemma_mod_pow2_mono(t: int, a: nat, b: nat)
    requires
        a <= b,
        t >= 0,
    ensures
        0 <= t % pow2(a) as int <= t % pow2(b) as int,
    decreases b - a,
{
    lemma_pow2_pos(a);
    vstd::arithmetic::div_mod::lemma_mod_bound(t, pow2(a) as int);
    if a < b {
        lemma_pow2_unfold((a + 1) as nat);
        lemma_mod_halves(t, pow2(a) as int);
        lemma_mod_pow2_mono(t, a + 1, b);
    }
}

/// A new allocator holds all its pages in free blocks that share no address.
pub proof fn law_new_is_complete(base: u64, total: u64, top: nat, max_order: nat)
    requires
        top <= max_order,
        top <= 51,
        base + total * PAGE_SZ <= u64::MAX,
    ensures
        free_pages(initial_lists(base, total, top, max_order), max_order + 1) == total,
        disjoint(initial_lists(base, total, top, max_order)),
{
    lemma_initial_pages(base, total, top, max_order, max_order + 1);
    let lists = initial_lists(base, total, top, max_order);
    let t = total as int;
    assert forall|p: int, i: int, q: int, j: int|
        #![trigger lists[p][i], lists[q][j]]
        0 <= p < lists.len() && 0 <= i < lists[p].len() && 0 <= q < lists.len() && 0 <= j < lists[q].len() && (p != q || i != j) implies apart(
        lists[p][i],
        p as nat,
        lists[q][j],
        q as nat,
    ) by {
        lemma_initial_place(base, total, top, p as nat, i);
        lemma_initial_place(base, total, top, q as nat, j);
        let bb = block_bytes(top) as int;
        if p == q {
            assert((i < j ==> i * bb + bb <= j * bb) && (j < i ==> j * bb + bb <= i * bb)) by (nonlinear_arith)
                requires
                    bb >= 0,
            ;
        } else if p < q {
            lemma_mod_pow2_mono(t, (p + 1) as nat, q as nat);
            let x = t % pow2((p + 1) as nat) as int;
            let y = t % pow2(q as nat) as int;
            assert((t - y) * PAGE_SZ <= (t - x) * PAGE_SZ) by (nonlinear_arith)
                requires
                    x <= y,
            ;
        } else {
            lemma_mod_pow2_mono(t, (q + 1) as nat, p as nat);
            let x = t % pow2((q + 1) as nat) as int;
            let y = t % pow2(p as nat) as int;
            assert((t - y) * PAGE_SZ <= (t - x) * PAGE_SZ) by (nonlinear_arith)
                requires
                    x <= y,
            ;
        }
    }
}

/// A block whose buddy is free is joined with it: the buddy leaves its list, which gets nothing in
/// return, and one list of larger blocks grows by one. A block whose buddy is in use, or that is of
/// the largest order, becomes free as it is, and no other list changes.
pub proof fn law_buddies_join(lists: Seq<Seq<u64>>, addr: u64, o: nat, max: nat)
    requires
        o <= max,
        max < lists.len(),
    ensures
        ({
            let buddy = addr ^ (block_bytes(o) as u64);
            let after = joined(lists, addr, o, max);
            &&& after.len() == lists.len()
            &&& o < max && lists[o as int].contains(buddy) ==> after[o as int].len() == lists[o as int].len() - 1 && exists|p: int|
                o < p <= max && (#[trigger] after[p]).len() == lists[p].len() + 1
            &&& !(o < max && lists[o as int].contains(buddy)) ==> after == lists.update(o as int, lists[o as int].push(addr))
        }),
    decreases max - o,
{
    let buddy = buddy_of(addr, o);
    if o < max && lists[o as int].contains(buddy) {
        let i = lists[o as int].index_of_first(buddy)->0;
        vstd::seq::Seq::index_of_first_ensures(lists[o as int], buddy);
        let rest = lists.update(o as int, lists[o as int].remove(i));
        lemma_joined_above(rest, lower(addr, buddy), o + 1, max);
        law_buddies_join(rest, lower(addr, buddy), o + 1, max);
        let after = joined(lists, addr, o, max);
        let next = lower(addr, buddy) ^ (block_bytes(o + 1) as u64);
        if o + 1 < max && rest[o as int + 1].contains(next) {
            let p = choose|p: int| o + 1 < p <= max && (#[trigger] after[p]).len() == rest[p].len() + 1;
            assert(after[p].len() == lists[p].len() + 1);
        } else {
            assert(after[o as int + 1].len() == lists[o as int + 1].len() + 1);
        }
    }
}

/// Joining blocks from order `o` on leaves the lists of smaller blocks alone.
proof fn lemma_joined_above(lists: Seq<Seq<u64>>, addr: u64, o: nat, max: nat)
    requires
        o <= max,
        max < lists.len(),
    ensures
        joined(lists, addr, o, max).len() == lists.len(),
        forall|p: int| 0 <= p < o ==> #[trigger] joined(lists, addr, o, max)[p] == lists[p],
    decreases max - o,
{
    let buddy = buddy_of(addr, o);
    if o < max && lists[o as int].contains(buddy) {
        let i = lists[o as int].index_of_first(buddy)->0;
        let rest = lists.update(o as int, lists[o as int].remove(i));
        lemma_joined_above(rest, lower(addr, buddy), o + 1, max);
        assert forall|p: int| 0 <= p < o implies #[trigger] joined(lists, addr, o, max)[p] == lists[p] by {
            assert(joined(rest, lower(addr, buddy), o + 1, max)[p] == rest[p]);
        }
    }
}

/// The largest free block is of the highest order whose list is not empty.
pub proof fn law_largest_is_highest(lists: Seq<Seq<u64>>, n: nat, o: int)
    requires
        n <= lists.len(),
        0 <= o < n,
        lists[o].len() > 0,
    ensures
        o <= highest_order(lists, n) < n,
        lists[highest_order(lists, n) as int].len() > 0,
    decreases n,
{
    if lists[n - 1].len() == 0 {
        law_largest_is_highest(lists, (n - 1) as nat, o);
    }
}

/// Objects of a slab are as large as was asked for, up to the next multiple of the alignment.
pub proof fn law_slab_rounds_up(size: usize)
    ensures
        size <= slab_size(size) < size + SLAB_ALIGN,
        slab_size(size) % SLAB_ALIGN as int == 0,
{
}

/// A place that a slab gave is free no longer, and is free again once it was given back, to be given
/// after all others that are free.
pub proof fn law_slab_reuses(free: Seq<usize>, size: usize, len: nat)
    requires
        free.len() > 0,
        free[0] < len,
        free[0] as int % size as int == 0,
        free.no_duplicates(),
    ensures
        ({
            let (slot, left) = slab_taken(free);
            let back = slab_given_back(left, slot->0, size, len);
            &&& slot is Some && free.contains(slot->0)
            &&& !left.contains(slot->0)
            &&& left.len() == free.len() - 1
            &&& back.to_multiset() == free.to_multiset()
            &&& back.last() == slot->0
        }),
{
    law_slab_free_undoes_alloc(free);
}

/// A frame that was taken was free, is in use afterwards, and is free again once it was given back;
/// no other frame is concerned.
pub proof fn law_frames_are_lent(slots: Seq<bool>, r: Option<usize>, after: Seq<bool>)
    requires
        frame_got(slots, r, after),
    ensures
        r is None <==> none_free(slots),
        r matches Some(i) ==> {
            &&& i < slots.len() && slots[i as int]
            &&& after.len() == slots.len() && !after[i as int]
            &&& forall|j: int| 0 <= j < slots.len() && j != i ==> #[trigger] after[j] == slots[j]
            &&& frame_put(after, i) == slots
            &&& crate::utils::free_count(after) == crate::utils::free_count(slots) - 1
        },
{
    if let Some(i) = r {
        assert(frame_put(after, i) =~= slots);
        lemma_free_count_update(slots, i as int);
    }
}

/// A run of frames that is lent was free, starts where it was asked to and is then taken; no other
/// frame is touched.
pub proof fn law_runs_are_lent(slots: Seq<bool>, n: int, align: u64, s: int, i: int)
    requires
        n > 0,
        align < 64,
        lowest_run(slots, n, frame_align(align), s),
        0 <= i < slots.len(),
    ensures
        s % pow2(align as nat) as int == 0,
        0 <= s && s + n <= slots.len(),
        s <= i < s + n ==> slots[i] && !taken(slots, s, n)[i],
        !(s <= i < s + n) ==> taken(slots, s, n)[i] == slots[i],
{
    if align == 0 {
        vstd::arithmetic::power2::lemma2_to64();
    }
}

} // verus!
