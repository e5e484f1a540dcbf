//! Virtual memory: address arithmetic, page frames, regions and the map of an address space.

use vstd::prelude::*;
use crate::consts::{KERN_BASE, KSTK_SZ, MEM_OFF, PAGE_SZ, PHYS_OFF, VM_GROWSDOWN};

verus! {

/// The kernel's address of the physical address `pa`.
pub fn p2v(pa: u64) -> (va: u64)
    ensures
        va == PHYS_OFF.wrapping_add(pa),
{
    PHYS_OFF.wrapping_add(pa)
}

/// The physical address behind the kernel's address `va`.
pub fn v2p(va: u64) -> (pa: u64)
    ensures
        pa == va.wrapping_sub(PHYS_OFF),
{
    va.wrapping_sub(PHYS_OFF)
}

/// Translating to the kernel's view and back is the identity, both ways.
pub proof fn law_translation_round_trip(a: u64)
    ensures
        PHYS_OFF.wrapping_add(a).wrapping_sub(PHYS_OFF) == a,
        PHYS_OFF.wrapping_add(a.wrapping_sub(PHYS_OFF)) == a,
{
}

/// Offset of `va` from the kernel's base.
pub fn k_off(va: u64) -> (r: u64)
    ensures
        r == va.wrapping_sub(KERN_BASE),
{
    va.wrapping_sub(KERN_BASE)
}

// ---------------------------------------------------------------------------------------------
// Page frames
// ---------------------------------------------------------------------------------------------

/// A page frame and the number of references to it.
#[derive(Clone, Copy, PartialEq, Eq, Structural)]
pub struct PgFrame {
    /// Index of the frame in the pool.
    pub frame_id: usize,
    /// References to the frame.
    pub rc: u64,
}

/// The physical address of frame `id`.
pub open spec fn frame_addr(id: usize) -> int {
    id * PAGE_SZ + MEM_OFF
}

impl PgFrame {
    /// A frame that nothing refers to yet.
    pub fn new(frame_id: usize) -> (f: Self)
        ensures
            f == (PgFrame { frame_id, rc: 0 }),
    {
        PgFrame { frame_id, rc: 0 }
    }

    /// A frame with `n` references.
    pub fn with_rc(frame_id: usize, n: u64) -> (f: Self)
        ensures
            f == (PgFrame { frame_id, rc: n }),
    {
        PgFrame { frame_id, rc: n }
    }

    /// Index of the frame.
    pub fn frame_id(&self) -> (id: usize)
        ensures
            id == self.frame_id,
    {
        self.frame_id
    }

    /// Physical address of the frame.
    pub fn phys_addr(&self) -> (pa: u64)
        requires
            frame_addr(self.frame_id) <= u64::MAX,
        ensures
            pa == frame_addr(self.frame_id),
    {
        self.frame_id as u64 * PAGE_SZ + MEM_OFF
    }

    /// Adds a reference; returns the count before.
    pub fn up(&mut self) -> (prev: u64)
        ensures
            prev == old(self).rc,
            *final(self) == (PgFrame { rc: old(self).rc.wrapping_add(1), ..*old(self) }),
            *final(self) == old(self).shared_once_more(),
    {
        let prev: u64 = self.rc;
        self.rc = prev.wrapping_add(1);
        prev
    }

    /// Takes a reference off; returns the count after.
    pub fn down(&mut self) -> (post: u64)
        requires
            old(self).rc > 0,
        ensures
            post == old(self).rc - 1,
            *final(self) == (PgFrame { rc: post, ..*old(self) }),
            *final(self) == old(self).shared_once_less(),
    {
        self.rc = self.rc - 1;
        self.rc
    }

    /// References to the frame.
    pub fn count(&self) -> (n: u64)
        ensures
            n == self.rc,
    {
        self.rc
    }

    /// Makes this describe another frame.
    pub fn set_frame_id(&mut self, id: usize)
        ensures
            *final(self) == (PgFrame { frame_id: id, ..*old(self) }),
    {
        self.frame_id = id;
    }

    /// Sets the count to `desired` if it is `expected`, and says whether it was.
    pub fn cas(&mut self, expected: u64, desired: u64) -> (b: bool)
        ensures
            b == (old(self).rc == expected),
            *final(self) == (if b { PgFrame { rc: desired, ..*old(self) } } else { *old(self) }),
    {
        if self.rc == expected {
            self.rc = desired;
            true
        } else {
            false
        }
    }

    /// Adds a reference unless there is none, and says whether it did.
    pub fn inc_if_nonzero(&mut self) -> (b: bool)
        requires
            old(self).rc < u64::MAX,
        ensures
            b == (old(self).rc != 0),
            *final(self) == (if b { PgFrame { rc: (old(self).rc + 1) as u64, ..*old(self) } } else { *old(self) }),
    {
        if self.rc == 0 {
            return false;
        }
        self.rc = self.rc + 1;
        true
    }
}

// ---------------------------------------------------------------------------------------------
// Regions
// ---------------------------------------------------------------------------------------------

/// A stretch of virtual memory with one set of permissions.
#[derive(Clone, Copy, PartialEq, Eq, Structural)]
pub struct VmRegion {
    /// First address.
    pub base: u64,
    /// Number of bytes.
    pub len: u64,
    /// Permissions and properties.
    pub flags: u32,
    /// Offset in what is mapped.
    pub offset: u64,
    /// Tells kinds of mappings apart.
    pub tag: u16,
    /// Number of maps that share the region.
    pub ref_count: u64,
}

impl VmRegion {
    /// First address behind the region.
    pub open spec fn stop(self) -> int {
        self.base + self.len
    }

    /// The region does not run over the end of the address space.
    pub open spec fn fits(self) -> bool {
        self.stop() <= u64::MAX
    }

    /// `addr` lies in the region.
    pub open spec fn covers(self, addr: int) -> bool {
        self.base <= addr < self.stop()
    }

    /// A region that maps from offset 0.
    pub fn new(base: u64, len: u64, flags: u32) -> (r: Self)
        ensures
            r == (VmRegion { base, len, flags, offset: 0, tag: 0, ref_count: 1 }),
    {
        VmRegion { base, len, flags, offset: 0, tag: 0, ref_count: 1 }
    }

    /// A region that maps from `offset`.
    pub fn with_offset(base: u64, len: u64, flags: u32, offset: u64) -> (r: Self)
        ensures
            r == (VmRegion { base, len, flags, offset, tag: 0, ref_count: 1 }),
    {
        VmRegion { base, len, flags, offset, tag: 0, ref_count: 1 }
    }

    /// First address behind the region.
    pub fn end(&self) -> (e: u64)
        requires
            self.fits(),
        ensures
            e == self.stop(),
    {
        self.base + self.len
    }

    /// Whether `addr` lies in the region.
    pub fn contains(&self, addr: u64) -> (b: bool)
        requires
            self.fits(),
        ensures
            b == self.covers(addr as int),
    {
        addr >= self.base && addr < self.base + self.len
    }

    /// Whether the two regions meet.
    pub fn overlaps(&self, other: &VmRegion) -> (b: bool)
        ensures
            b == (self.base.wrapping_add(self.len) > other.base && other.base.wrapping_add(other.len) > self.base),
            self.fits() && other.fits() && self.len > 0 && other.len > 0 ==> (b <==> exists|a: int|
                self.covers(a) && #[trigger] other.covers(a)),
    {
        let a_end: u64 = self.base.wrapping_add(self.len);
        let b_end: u64 = other.base.wrapping_add(other.len);
        let no_overlap = a_end <= other.base || b_end <= self.base;
        proof {
            if self.fits() && other.fits() && self.len > 0 && other.len > 0 && !no_overlap {
                let a: int = if self.base >= other.base { self.base as int } else { other.base as int };
                assert(self.covers(a) && other.covers(a));
            }
        }
        !no_overlap
    }

    /// The two halves of the region at `addr`.
    pub open spec fn halves(self, addr: u64) -> (VmRegion, VmRegion) {
        let ll = (addr - self.base) as u64;
        (
            VmRegion {
                len: ll,
                flags: if self.flags & VM_GROWSDOWN != 0 { self.flags & !VM_GROWSDOWN } else { self.flags },
                ..self
            },
            VmRegion { base: addr, len: (self.len - ll) as u64, offset: self.offset.wrapping_add(ll), ..self },
        )
    }

    /// Splits the region at an inner address. Only the upper half keeps growing downwards.
    pub fn split_at(&self, addr: u64) -> (r: Option<(VmRegion, VmRegion)>)
        requires
            self.fits(),
        ensures
            r == (if self.base < addr < self.stop() { Some(self.halves(addr)) } else { None }),
    {
        let e: u64 = self.base + self.len;
        if addr <= self.base || addr >= e {
            return None;
        }
        let ll: u64 = addr - self.base;
        let rl: u64 = self.len - ll;
        let mut lf: u32 = self.flags;
        if self.flags & VM_GROWSDOWN != 0 {
            lf = lf & !VM_GROWSDOWN;
        }
        let l = VmRegion { base: self.base, len: ll, flags: lf, offset: self.offset, tag: self.tag, ref_count: self.ref_count };
        let r = VmRegion {
            base: addr,
            len: rl,
            flags: self.flags,
            offset: self.offset.wrapping_add(ll),
            tag: self.tag,
            ref_count: self.ref_count,
        };
        Some((l, r))
    }

    /// `other` follows on this region and is of the same kind.
    pub open spec fn mergeable(self, other: VmRegion) -> bool {
        self.stop() == other.base && self.flags == other.flags && self.tag == other.tag
    }

    /// This region and the one that follows on it as one.
    pub open spec fn merged(self, other: VmRegion) -> VmRegion {
        VmRegion {
            len: (self.len + other.len) as u64,
            ref_count: if self.ref_count >= other.ref_count { self.ref_count } else { other.ref_count },
            ..self
        }
    }

    /// Merges the region with one of the same kind that follows on it.
    pub fn merge_with(&self, other: &VmRegion) -> (r: Option<VmRegion>)
        requires
            self.fits(),
            self.mergeable(*other) ==> self.len + other.len <= u64::MAX,
        ensures
            r == (if self.mergeable(*other) { Some(self.merged(*other)) } else { None }),
    {
        let se: u64 = self.base + self.len;
        if se != other.base {
            return None;
        }
        if self.flags != other.flags {
            return None;
        }
        if self.tag != other.tag {
            return None;
        }
        Some(
            VmRegion {
                base: self.base,
                len: self.len + other.len,
                flags: self.flags,
                offset: self.offset,
                tag: self.tag,
                ref_count: if self.ref_count >= other.ref_count {
                    self.ref_count
                } else {
                    other.ref_count
                },
            },
        )
    }

    /// Adds a sharer; returns the count before.
    pub fn ref_up(&mut self) -> (prev: u64)
        ensures
            prev == old(self).ref_count,
            *final(self) == (VmRegion { ref_count: old(self).ref_count.wrapping_add(1), ..*old(self) }),
    {
        let prev: u64 = self.ref_count;
        self.ref_count = prev.wrapping_add(1);
        prev
    }

    /// Takes a sharer off; returns the count before.
    pub fn ref_down(&mut self) -> (prev: u64)
        ensures
            prev == old(self).ref_count,
            *final(self) == (VmRegion { ref_count: old(self).ref_count.wrapping_sub(1), ..*old(self) }),
    {
        let prev: u64 = self.ref_count;
        self.ref_count = prev.wrapping_sub(1);
        prev
    }

    /// Number of maps that share the region.
    pub fn ref_get(&self) -> (n: u64)
        ensures
            n == self.ref_count,
    {
        self.ref_count
    }
}

/// Merging undoes splitting, for a region that does not grow downwards.
pub proof fn law_merge_undoes_split(r: VmRegion, addr: u64)
    requires
        r.fits(),
        r.base < addr < r.stop(),
        r.flags & VM_GROWSDOWN == 0,
    ensures
        r.halves(addr).0.mergeable(r.halves(addr).1),
        r.halves(addr).0.merged(r.halves(addr).1) == r,
{
}

/// The halves of a region share no address and cover just the region.
pub proof fn law_split_partitions(r: VmRegion, addr: u64, a: int)
    requires
        r.fits(),
        r.base < addr < r.stop(),
    ensures
        r.covers(a) <==> r.halves(addr).0.covers(a) || r.halves(addr).1.covers(a),
        !(r.halves(addr).0.covers(a) && r.halves(addr).1.covers(a)),
{
}

// ---------------------------------------------------------------------------------------------
// The map
// ---------------------------------------------------------------------------------------------

/// The regions of an address space.
pub struct VmMap {
    /// Regions by ascending address.
    pub regions: Vec<VmRegion>,
    /// End of the heap.
    pub brk: u64,
    /// Where the search for free addresses starts.
    pub mmap_base: u64,
}

/// The regions are nonempty, fit, ascend and do not meet.
pub open spec fn regions_wf(s: Seq<VmRegion>) -> bool {
    &&& forall|i: int| 0 <= i < s.len() ==> (#[trigger] s[i]).len > 0 && s[i].fits()
    &&& forall|i: int, j: int| 0 <= i < j < s.len() ==> (#[trigger] s[i]).stop() <= (#[trigger] s[j]).base
}

/// The region meets the addresses from `lo` up to `hi`.
pub open spec fn meets(r: VmRegion, lo: int, hi: int) -> bool {
    r.base < hi && lo < r.stop()
}

/// No region meets the addresses from `lo` up to `hi`.
pub open spec fn unmapped(s: Seq<VmRegion>, lo: int, hi: int) -> bool {
    forall|i: int| 0 <= i < s.len() ==> !meets(#[trigger] s[i], lo, hi)
}

/// The `len` bytes from `c` on are free.
pub open spec fn free_at(s: Seq<VmRegion>, c: u64, len: u64) -> bool {
    unmapped(s, c as int, c + len)
}

/// The region does not meet the addresses from `lo` up to `hi`.
pub open spec fn clear_of(lo: int, hi: int) -> spec_fn(VmRegion) -> bool {
    |r: VmRegion| !meets(r, lo, hi)
}

/// Where a region with the first address `base` belongs.
pub open spec fn slot_for(s: Seq<VmRegion>, base: u64, i: int) -> bool {
    &&& 0 <= i <= s.len()
    &&& forall|j: int| 0 <= j < i ==> (#[trigger] s[j]).base <= base
    &&& forall|j: int| i <= j < s.len() ==> (#[trigger] s[j]).base > base
}

/// Sum of the lengths, as a machine word.
pub open spec fn mapped_sum(s: Seq<VmRegion>) -> u64
    decreases s.len(),
{
    if s.len() == 0 {
        0
    } else {
        mapped_sum(s.drop_last()).wrapping_add(s.last().len)
    }
}

/// `cand` is the lowest address from `from` on, with no bit of `mask` set, where `len` bytes below
/// the kernel are free.
pub open spec fn first_free(s: Seq<VmRegion>, from: u64, len: u64, mask: u64, cand: u64) -> bool {
    &&& cand >= from
    &&& cand & mask == 0
    &&& cand + len <= KERN_BASE
    &&& free_at(s, cand, len)
    &&& forall|c: u64| from <= c < cand && c & mask == 0 ==> !#[trigger] free_at(s, c, len)
}

/// The alignment that a request for `align` gets.
pub open spec fn effective_align(align: u64) -> u64 {
    if align > 1 {
        align
    } else {
        PAGE_SZ
    }
}

proof fn lemma_filter_regions(s: Seq<VmRegion>, p: spec_fn(VmRegion) -> bool)
    requires
        regions_wf(s),
    ensures
        regions_wf(s.filter(p)),
    decreases s.len(),
{
    reveal(Seq::filter);
    if s.len() > 0 {
        let t = s.drop_last();
        assert(regions_wf(t)) by {
            assert forall|i: int, j: int| 0 <= i < j < t.len() implies (#[trigger] t[i]).stop() <= (#[trigger] t[j]).base by {
                assert(s[i].stop() <= s[j].base);
            }
            assert forall|i: int| 0 <= i < t.len() implies (#[trigger] t[i]).len > 0 && t[i].fits() by {
                assert(s[i].len > 0);
            }
        }
        lemma_filter_regions(t, p);
        crate::seqs::lemma_filter_contains(t, p);
        let f = t.filter(p);
        assert forall|i: int| 0 <= i < f.len() implies (#[trigger] f[i]).stop() <= s.last().base by {
            assert(f.contains(f[i]));
            let x = choose|x: int| 0 <= x < t.len() && t[x] == f[i];
            assert(s[x].stop() <= s[s.len() - 1].base);
        }
        assert(s[s.len() - 1].len > 0);
    }
}

/// Some region holds `addr`.
pub open spec fn is_mapped(s: Seq<VmRegion>, addr: u64) -> bool {
    exists|i: int| 0 <= i < s.len() && (#[trigger] s[i]).covers(addr as int)
}

/// Putting a region among the regions `s` gives `r` and leaves `after`.
pub open spec fn put_region(s: Seq<VmRegion>, region: VmRegion, r: Result<(), &'static str>, after: Seq<VmRegion>) -> bool {
    let free = unmapped(s, region.base as int, region.base.wrapping_add(region.len) as int);
    &&& r == (if free { Ok(()) } else { Err("overlap") })
    &&& !free ==> after == s
    &&& free ==> exists|i: int| #[trigger] slot_for(s, region.base, i) && after == s.insert(i, region)
}

/// The regions that are left when those that meet a range are taken out.
pub open spec fn range_removed(s: Seq<VmRegion>, lo: int, hi: int) -> Seq<VmRegion> {
    s.filter(clear_of(lo, hi))
}

impl VmMap {
    /// The regions are nonempty, fit, ascend and do not meet.
    pub open spec fn wf(&self) -> bool {
        regions_wf(self.regions@)
    }

    /// An empty map.
    pub fn new() -> (m: Self)
        ensures
            m.wf(),
            m.regions@ == Seq::<VmRegion>::empty(),
            m.brk == 0x0040_0000,
            m.mmap_base == 0x7000_0000,
    {
        VmMap { regions: Vec::new(), brk: 0x0040_0000, mmap_base: 0x7000_0000 }
    }

    /// Adds a region in its place; one that meets another is refused.
    pub fn insert(&mut self, region: VmRegion) -> (r: Result<(), &'static str>)
        requires
            old(self).wf(),
        ensures
            put_region(old(self).regions@, region, r, final(self).regions@),
            ({
                let free = unmapped(old(self).regions@, region.base as int, region.base.wrapping_add(region.len) as int);
                &&& r == (if free { Ok(()) } else { Err("overlap") })
                &&& !free ==> final(self).regions == old(self).regions
                &&& free ==> exists|i: int|
                    #[trigger] slot_for(old(self).regions@, region.base, i) && final(self).regions@ == old(self).regions@.insert(
                        i,
                        region,
                    )
            }),
            r is Err || (region.len > 0 && region.fits()) ==> final(self).wf(),
            final(self).brk == old(self).brk,
            final(self).mmap_base == old(self).mmap_base,
    {
        let rb: u64 = region.base;
        let re: u64 = rb.wrapping_add(region.len);
        let ghost s = self.regions@;
        let mut idx: usize = 0;
        while idx < self.regions.len() && self.regions[idx].base <= rb
            invariant
                *self == *old(self),
                s == self.regions@,
                regions_wf(s),
                rb == region.base,
                re == rb.wrapping_add(region.len),
                idx <= s.len(),
                forall|j: int| 0 <= j < idx ==> (#[trigger] s[j]).base <= rb && !meets(s[j], rb as int, re as int),
            decreases s.len() - idx,
        {
            let eb: u64 = self.regions[idx].base;
            assert(s[idx as int].fits());
            let ee: u64 = eb + self.regions[idx].len;
            if rb < ee && eb < re {
                assert(meets(s[idx as int], rb as int, re as int));
                return Err("overlap");
            }
            idx += 1;
        }
        if idx < self.regions.len() {
            let eb: u64 = self.regions[idx].base;
            assert(s[idx as int].fits());
            let ee: u64 = eb + self.regions[idx].len;
            if rb < ee && eb < re {
                assert(meets(s[idx as int], rb as int, re as int));
                return Err("overlap");
            }
        }
        proof {
            assert forall|j: int| idx <= j < s.len() implies (#[trigger] s[j]).base > rb && !meets(s[j], rb as int, re as int) by {
                assert(s[idx as int].len > 0);
                if j > idx {
                    assert(s[idx as int].stop() <= s[j].base);
                }
            }
            assert(slot_for(s, rb, idx as int));
            assert(unmapped(s, rb as int, re as int));
        }
        self.regions.insert(idx, region);
        proof {
            if region.len > 0 && region.fits() {
                let a = self.regions@;
                assert forall|i: int| 0 <= i < a.len() implies (#[trigger] a[i]).len > 0 && a[i].fits() by {
                    if i < idx {
                        assert(s[i].len > 0 && s[i].fits());
                    } else if i > idx {
                        assert(s[i - 1].len > 0 && s[i - 1].fits());
                    }
                }
                assert forall|i: int, j: int| 0 <= i < j < a.len() implies (#[trigger] a[i]).stop() <= (#[trigger] a[j]).base by {
                    let si = if i < idx { i } else { i - 1 };
                    let sj = if j < idx { j } else { j - 1 };
                    if i == idx {
                        assert(!meets(s[sj], rb as int, re as int));
                        assert(s[sj].len > 0);
                        assert(s[sj].base > rb);
                    } else if j == idx {
                        assert(!meets(s[si], rb as int, re as int));
                        assert(s[si].base <= rb);
                        assert(s[si].len > 0);
                    } else {
                        assert(s[si].stop() <= s[sj].base);
                    }
                }
            }
        }
        Ok(())
    }

    /// The region in which `addr` lies.
    pub fn find(&self, addr: u64) -> (r: Option<&VmRegion>)
        requires
            self.wf(),
        ensures
            r is Some <==> is_mapped(self.regions@, addr),
            r is Some <==> exists|i: int| 0 <= i < self.regions@.len() && (#[trigger] self.regions@[i]).covers(addr as int),
            r matches Some(g) ==> self.regions@.contains(*g) && g.covers(addr as int),
    {
        match self.find_index(addr) {
            Some(i) => Some(&self.regions[i]),
            None => None,
        }
    }

    /// Index of the region in which `addr` lies.
    pub fn find_index(&self, addr: u64) -> (r: Option<usize>)
        requires
            self.wf(),
        ensures
            r is Some <==> is_mapped(self.regions@, addr),
            r is Some <==> exists|i: int| 0 <= i < self.regions@.len() && (#[trigger] self.regions@[i]).covers(addr as int),
            r matches Some(i) ==> i < self.regions@.len() && self.regions@[i as int].covers(addr as int),
    {
        let mut lo: usize = 0;
        let mut hi: usize = self.regions.len();
        while lo < hi
            invariant
                self.wf(),
                lo <= hi <= self.regions@.len(),
                forall|i: int| 0 <= i < lo ==> (#[trigger] self.regions@[i]).stop() <= addr,
                forall|i: int| hi <= i < self.regions@.len() ==> addr < (#[trigger] self.regions@[i]).base,
            decreases hi - lo,
        {
            let mid: usize = lo + (hi - lo) / 2;
            let r = &self.regions[mid];
            assert(self.regions@[mid as int].fits() && self.regions@[mid as int].len > 0);
            if addr < r.base {
                proof {
                    assert forall|i: int| mid <= i < self.regions@.len() implies addr < (#[trigger] self.regions@[i]).base by {
                        if i > mid {
                            assert(self.regions@[mid as int].stop() <= self.regions@[i].base);
                        }
                    }
                }
                hi = mid;
            } else if addr >= r.base + r.len {
                proof {
                    assert forall|i: int| 0 <= i < mid + 1 implies (#[trigger] self.regions@[i]).stop() <= addr by {
                        if i < mid {
                            assert(self.regions@[i].stop() <= self.regions@[mid as int].base);
                        }
                    }
                }
                lo = mid + 1;
            } else {
                return Some(mid);
            }
        }
        None
    }

    /// Drops the regions that meet the `len` bytes from `base` on; returns their number.
    pub fn remove_range(&mut self, base: u64, len: u64) -> (n: usize)
        requires
            old(self).wf(),
        ensures
            final(self).regions@ == range_removed(old(self).regions@, base as int, base.wrapping_add(len) as int),
            final(self).wf(),
            final(self).regions@ == old(self).regions@.filter(clear_of(base as int, base.wrapping_add(len) as int)),
            n == old(self).regions@.len() - final(self).regions@.len(),
            final(self).brk == old(self).brk,
            final(self).mmap_base == old(self).mmap_base,
    {
        let end: u64 = base.wrapping_add(len);
        let ghost s = self.regions@;
        let ghost p = clear_of(base as int, end as int);
        let mut kept: Vec<VmRegion> = Vec::new();
        let mut i: usize = 0;
        proof {
            crate::seqs::lemma_filter_ends(s, p);
        }
        while i < self.regions.len()
            invariant
                *self == *old(self),
                s == self.regions@,
                regions_wf(s),
                i <= s.len(),
                p == clear_of(base as int, end as int),
                kept@ == s.take(i as int).filter(p),
            decreases s.len() - i,
        {
            proof {
                crate::seqs::lemma_filter_step(s, i as int, p);
                assert(s[i as int].fits() && s[i as int].len > 0);
            }
            let r = self.regions[i];
            let re: u64 = r.base + r.len;
            if (r.base >= base && re <= end) || (r.base < end && re > base) {
            } else {
                kept.push(r);
            }
            i += 1;
        }
        proof {
            crate::seqs::lemma_filter_ends(s, p);
            lemma_filter_regions(s, p);
        }
        let n: usize = self.regions.len() - kept.len();
        self.regions = kept;
        n
    }

    /// Sum of the lengths of all regions, as a machine word.
    pub fn total_mapped(&self) -> (n: u64)
        ensures
            n == mapped_sum(self.regions@),
    {
        let mut n: u64 = 0;
        let mut i: usize = 0;
        while i < self.regions.len()
            invariant
                i <= self.regions@.len(),
                n == mapped_sum(self.regions@.take(i as int)),
            decreases self.regions@.len() - i,
        {
            n = n.wrapping_add(self.regions[i].len);
            i += 1;
            assert(self.regions@.take(i as int).drop_last() =~= self.regions@.take(i - 1));
        }
        assert(self.regions@.take(i as int) =~= self.regions@);
        n
    }

    /// A copy of all regions.
    pub fn clone_regions(&self) -> (v: Vec<VmRegion>)
        ensures
            v@ == self.regions@,
    {
        let mut v: Vec<VmRegion> = Vec::new();
        let mut i: usize = 0;
        while i < self.regions.len()
            invariant
                i <= self.regions@.len(),
                v@ == self.regions@.take(i as int),
            decreases self.regions@.len() - i,
        {
            v.push(self.regions[i]);
            i += 1;
            assert(v@ =~= self.regions@.take(i as int));
        }
        assert(v@ =~= self.regions@);
        v
    }

    /// Bytes between region `idx` and the next one, or the kernel.
    pub fn gap_after(&self, idx: usize) -> (n: u64)
        requires
            idx < self.regions@.len() ==> self.regions@[idx as int].fits(),
        ensures
            n == (if idx >= self.regions@.len() {
                0
            } else {
                let stop = self.regions@[idx as int].stop();
                let next = if idx + 1 < self.regions@.len() {
                    self.regions@[idx + 1].base as int
                } else {
                    KERN_BASE as int
                };
                if next > stop {
                    next - stop
                } else {
                    0
                }
            }),
    {
        if idx >= self.regions.len() {
            return 0;
        }
        let re: u64 = self.regions[idx].base + self.regions[idx].len;
        if idx < self.regions.len() - 1 {
            self.regions[idx + 1].base.saturating_sub(re)
        } else {
            KERN_BASE.saturating_sub(re)
        }
    }
}

// ---------------------------------------------------------------------------------------------
// Free addresses
// ---------------------------------------------------------------------------------------------

/// Region `i` is the first that meets the addresses from `lo` up to `hi`.
pub open spec fn first_meeting(s: Seq<VmRegion>, lo: int, hi: int, i: int) -> bool {
    0 <= i < s.len() && meets(s[i], lo, hi) && (forall|j: int| 0 <= j < i ==> !meets(#[trigger] s[j], lo, hi))
}

/// `x` rounded up by `mask`.
pub open spec fn round_up(x: int, mask: u64) -> u64 {
    ((x + mask) as u64) & !mask
}

/// The search for `len` free bytes from `cand` on, in at most `tries` steps: where a region is in
/// the way the search goes on behind it.
pub open spec fn probe(s: Seq<VmRegion>, len: u64, mask: u64, cand: u64, tries: nat) -> Option<u64>
    decreases tries,
{
    if tries == 0 || cand + len > KERN_BASE {
        None
    } else if free_at(s, cand, len) {
        Some(cand)
    } else {
        let lo = cand as int;
        let hi = cand + len;
        let i = choose|i: int| first_meeting(s, lo, hi, i);
        probe(s, len, mask, round_up(s[i].stop(), mask), (tries - 1) as nat)
    }
}

/// Every place behind a region that this search comes to can be rounded up within the word.
pub open spec fn probe_fits(s: Seq<VmRegion>, len: u64, mask: u64, cand: u64, tries: nat) -> bool
    decreases tries,
{
    if tries == 0 || cand + len > KERN_BASE || free_at(s, cand, len) {
        true
    } else {
        let lo = cand as int;
        let hi = cand + len;
        let i = choose|i: int| first_meeting(s, lo, hi, i);
        s[i].stop() + mask <= u64::MAX && probe_fits(s, len, mask, round_up(s[i].stop(), mask), (tries - 1) as nat)
    }
}

proof fn lemma_some_meeting(s: Seq<VmRegion>, lo: int, hi: int, k: int)
    requires
        0 <= k < s.len(),
        meets(s[k], lo, hi),
    ensures
        exists|i: int| first_meeting(s, lo, hi, i),
    decreases k,
{
    if forall|j: int| 0 <= j < k ==> !meets(#[trigger] s[j], lo, hi) {
        assert(first_meeting(s, lo, hi, k));
    } else {
        let j = choose|j: int| 0 <= j < k && meets(#[trigger] s[j], lo, hi);
        lemma_some_meeting(s, lo, hi, j);
    }
}

/// Where the end of every region can be rounded up within the word, every search can.
pub proof fn law_low_regions_fit(s: Seq<VmRegion>, len: u64, mask: u64, cand: u64, tries: nat)
    requires
        forall|i: int| 0 <= i < s.len() ==> (#[trigger] s[i]).stop() + mask <= u64::MAX,
    ensures
        probe_fits(s, len, mask, cand, tries),
    decreases tries,
{
    if !(tries == 0 || cand + len > KERN_BASE || free_at(s, cand, len)) {
        let lo = cand as int;
        let hi = cand + len;
        let k = choose|k: int| 0 <= k < s.len() && meets(#[trigger] s[k], lo, hi);
        lemma_some_meeting(s, lo, hi, k);
        let i = choose|i: int| first_meeting(s, lo, hi, i);
        law_low_regions_fit(s, len, mask, round_up(s[i].stop(), mask), (tries - 1) as nat);
    }
}

proof fn lemma_round_up(x: u64, mask: u64)
    requires
        mask < u64::MAX,
        mask & ((mask + 1) as u64) == 0,
        x + mask <= u64::MAX,
    ensures
        round_up(x as int, mask) >= x,
        round_up(x as int, mask) & mask == 0,
        forall|c: u64| c >= x && #[trigger] (c & mask) == 0 ==> c >= round_up(x as int, mask),
{
    let y = ((x + mask) as u64) & !mask;
    assert(y >= x && y & mask == 0) by (bit_vector)
        requires
            mask < 0xffff_ffff_ffff_ffff,
            mask & ((mask + 1) as u64) == 0,
            x + mask <= 0xffff_ffff_ffff_ffff,
            y == ((x + mask) as u64) & !mask,
    ;
    assert forall|c: u64| c >= x && #[trigger] (c & mask) == 0 implies c >= y by {
        assert(c >= y) by (bit_vector)
            requires
                mask < 0xffff_ffff_ffff_ffff,
                mask & ((mask + 1) as u64) == 0,
                x + mask <= 0xffff_ffff_ffff_ffff,
                y == ((x + mask) as u64) & !mask,
                c >= x,
                c & mask == 0,
        ;
    }
}

impl VmMap {
    /// Finds `len` free bytes below the kernel, from the mapping base on. For an alignment that is
    /// a power of two this is the lowest aligned place there is.
    pub fn find_free(&self, len: u64, align: u64) -> (r: Option<u64>)
        requires
            self.wf(),
            len > 0 ==> {
                let mask = (effective_align(align) - 1) as u64;
                &&& self.mmap_base + mask <= u64::MAX
                &&& probe_fits(self.regions@, len, mask, round_up(self.mmap_base as int, mask), self.regions@.len() + 2)
            },
        ensures
            len == 0 ==> r == Some(self.mmap_base),
            ({
                let mask = (effective_align(align) - 1) as u64;
                len > 0 ==> {
                    &&& r == probe(self.regions@, len, mask, round_up(self.mmap_base as int, mask), self.regions@.len() + 2)
                    &&& effective_align(align) & mask == 0 && r is Some ==> first_free(
                        self.regions@,
                        self.mmap_base,
                        len,
                        mask,
                        r->0,
                    )
                    &&& effective_align(align) & mask == 0 && r is None ==> forall|c: u64|
                        c >= self.mmap_base && c & mask == 0 && c + len <= KERN_BASE ==> !#[trigger] free_at(self.regions@, c, len)
                }
            }),
    {
        if len == 0 {
            return Some(self.mmap_base);
        }
        let al: u64 = if align > 1 {
            align
        } else {
            PAGE_SZ
        };
        let mask: u64 = al - 1;
        let ghost s = self.regions@;
        let ghost pow = al & mask == 0;
        let ghost base = self.mmap_base;
        let mut cand: u64 = (self.mmap_base + mask) & !mask;
        let mut iters: u128 = 0;
        let n = self.regions.len();
        proof {
            assert(al & mask == mask & al) by (bit_vector);
            if pow {
                lemma_round_up(base, mask);
            }
        }
        // one try for each region that can be in the way, and two to spare
        while iters < n as u128 + 2
            invariant
                self.wf(),
                s == self.regions@,
                n == s.len(),
                base == self.mmap_base,
                len > 0,
                al == effective_align(align),
                mask == al - 1,
                pow == (al & mask == 0),
                al & mask == mask & al,
                iters <= n + 2,
                probe_fits(s, len, mask, cand, (s.len() + 2 - iters) as nat),
                probe(s, len, mask, round_up(base as int, mask), s.len() + 2) == probe(s, len, mask, cand, (s.len() + 2 - iters) as nat),
                pow ==> {
                    &&& cand >= base
                    &&& cand & mask == 0
                    &&& iters <= n
                    &&& forall|j: int| 0 <= j < iters ==> (#[trigger] s[j]).stop() <= cand
                    &&& forall|c: u64| base <= c < cand && c & mask == 0 ==> !#[trigger] free_at(s, c, len)
                },
            decreases n + 2 - iters,
        {
            if cand > KERN_BASE || len > KERN_BASE - cand {
                return None;
            }
            let ce: u64 = cand + len;
            let mut i: usize = 0;
            while i < n && !(self.regions[i].base < ce && cand < self.regions[i].base + self.regions[i].len)
                invariant
                    self.wf(),
                    s == self.regions@,
                    n == s.len(),
                    i <= n,
                    ce == cand + len,
                    forall|j: int| 0 <= j < i ==> !meets(#[trigger] s[j], cand as int, ce as int),
                decreases n - i,
            {
                assert(s[i as int].fits());
                i += 1;
                assert(i < n ==> s[i as int].fits());
            }
            if i == n {
                assert(unmapped(s, cand as int, ce as int));
                return Some(cand);
            }
            proof {
                assert(s[i as int].fits());
                assert(first_meeting(s, cand as int, ce as int, i as int));
                let lo = cand as int;
                let hi = cand + len;
                let w = choose|w: int| first_meeting(s, lo, hi, w);
                if w < i {
                    assert(!meets(s[w], cand as int, ce as int));
                } else if i < w {
                    assert(!meets(s[i as int], cand as int, ce as int));
                }
            }
            let conflict_end: u64 = self.regions[i].base + self.regions[i].len;
            assert(s[i as int].stop() + mask <= u64::MAX);
            let ghost prev = cand;
            cand = (conflict_end + mask) & !mask;
            proof {
                assert(round_up(s[i as int].stop(), mask) == cand);
                if pow {
                    lemma_round_up(conflict_end, mask);
                    if i < iters {
                        assert(s[i as int].stop() <= prev);
                    }
                    assert forall|j: int| 0 <= j < iters + 1 implies (#[trigger] s[j]).stop() <= cand by {
                        if j < i {
                            assert(s[j].stop() <= s[i as int].base);
                        }
                    }
                    assert forall|c: u64| base <= c < cand && c & mask == 0 implies !#[trigger] free_at(s, c, len) by {
                        if c >= prev {
                            assert(c < conflict_end);
                            assert(meets(s[i as int], c as int, c + len));
                        }
                    }
                }
            }
            iters += 1;
        }
        proof {
            assert(!pow);
        }
        None
    }
}

// ---------------------------------------------------------------------------------------------
// Kernel stacks and user memory
// ---------------------------------------------------------------------------------------------

/// A kernel stack, by the address of its lower end.
pub struct KStk(u64);

impl KStk {
    /// The lower end.
    pub closed spec fn low(&self) -> u64 {
        self.0
    }

    /// A stack over the memory from `base` on, whose owner keeps it alive.
    pub fn new(base: u64) -> (s: Self)
        ensures
            s.low() == base,
    {
        KStk(base)
    }

    /// The upper end, from which the stack grows down.
    pub fn top(&self) -> (a: u64)
        requires
            self.low() + KSTK_SZ <= u64::MAX,
        ensures
            a == self.low() + KSTK_SZ,
    {
        self.0 + KSTK_SZ
    }
}

/// Whether the `len` bytes from `addr` on lie below the kernel.
pub fn check_access(addr: u64, len: u64) -> (b: bool)
    ensures
        b == (addr < KERN_BASE && addr + len <= KERN_BASE),
{
    addr < KERN_BASE && len <= KERN_BASE - addr
}

/// Whether the `len` bytes from `addr` on can be accessed: they end strictly below the kernel. No
/// bytes always can. Whether the access is a write makes no difference.
pub fn check_access_rw(addr: u64, len: u64, writable: bool) -> (b: bool)
    ensures
        b == (len == 0 || addr + len < KERN_BASE),
{
    if len == 0 {
        return true;
    }
    let boundary: u64 = addr.wrapping_add(len);
    if boundary >= KERN_BASE || boundary < addr {
        return false;
    }
    true
}

/// Bytes that a transfer of `len` stands for: the size of the type, for 0.
pub open spec fn transfer_len<T>(len: u64) -> nat {
    if len == 0 {
        vstd::layout::size_of::<T>()
    } else {
        len as nat
    }
}

/// Checks a transfer of a `T` from user memory; a valid one yields the default value.
pub fn cfu<T: Copy + Default>(addr: u64, len: u64) -> (r: Option<T>)
    ensures
        r is Some <==> addr < KERN_BASE && addr + transfer_len::<T>(len) <= KERN_BASE,
        r matches Some(v) ==> call_ensures(T::default, (), v),
{
    let n: u64 = if len == 0 {
        std::mem::size_of::<T>() as u64
    } else {
        len
    };
    if !check_access(addr, n) {
        return None;
    }
    Some(T::default())
}

/// Checks a transfer of a `T` to user memory.
pub fn ctu<T: Copy>(addr: u64, len: u64, _v: &T) -> (b: bool)
    ensures
        b == (transfer_len::<T>(len) == 0 || addr + transfer_len::<T>(len) < KERN_BASE),
{
    let n: u64 = if len == 0 {
        std::mem::size_of::<T>() as u64
    } else {
        len
    };
    check_access_rw(addr, n, true)
}

/// A region that was put in maps its addresses, and no other address becomes mapped or unmapped; one
/// that would overlap another is refused, and nothing changes.
pub proof fn law_region_maps_addresses(
    s: Seq<VmRegion>,
    region: VmRegion,
    r: Result<(), &'static str>,
    after: Seq<VmRegion>,
    a: u64,
)
    requires
        regions_wf(s),
        region.len > 0,
        region.fits(),
        put_region(s, region, r, after),
    ensures
        r is Ok ==> (is_mapped(after, a) <==> is_mapped(s, a) || region.base <= a < region.base + region.len),
        r is Ok ==> !(is_mapped(s, a) && region.base <= a < region.base + region.len),
        is_mapped(s, a) && region.base <= a < region.base + region.len ==> r is Err,
        r is Err ==> after == s,
{
    if r is Ok {
        let i = choose|i: int| #[trigger] slot_for(s, region.base, i) && after == s.insert(i, region);
        if is_mapped(s, a) {
            let j = choose|j: int| 0 <= j < s.len() && (#[trigger] s[j]).covers(a as int);
            assert(!meets(s[j], region.base as int, region.stop()));
            assert(after[if j < i { j } else { j + 1 }].covers(a as int));
        }
        if region.covers(a as int) {
            assert(after[i].covers(a as int));
        }
        if is_mapped(after, a) && !region.covers(a as int) {
            let j = choose|j: int| 0 <= j < after.len() && (#[trigger] after[j]).covers(a as int);
            assert(s[if j < i { j } else { j - 1 }].covers(a as int));
        }
    } else {
        if is_mapped(s, a) && region.covers(a as int) {
            let j = choose|j: int| 0 <= j < s.len() && (#[trigger] s[j]).covers(a as int);
            assert(meets(s[j], region.base as int, region.stop()));
        }
    }
}

/// After a range was taken out no address in it is mapped, and regions that do not meet it stay.
pub proof fn law_removed_range_is_unmapped(s: Seq<VmRegion>, lo: int, hi: int, a: u64, i: int)
    requires
        0 <= i < s.len(),
    ensures
        lo <= a < hi ==> !is_mapped(range_removed(s, lo, hi), a),
        s[i].stop() <= lo || hi <= s[i].base ==> range_removed(s, lo, hi).contains(s[i]),
{
    let left = range_removed(s, lo, hi);
    crate::seqs::lemma_filter_contains(s, clear_of(lo, hi));
    assert(s.contains(s[i]));
    if lo <= a < hi && is_mapped(left, a) {
        let j = choose|j: int| 0 <= j < left.len() && (#[trigger] left[j]).covers(a as int);
        assert(left.contains(left[j]));
        assert(clear_of(lo, hi)(left[j]));
    }
}

/// A region more maps as many bytes more as it is long.
pub proof fn law_mapped_bytes_add_up(s: Seq<VmRegion>, r: VmRegion)
    requires
        mapped_sum(s) + r.len <= u64::MAX,
    ensures
        mapped_sum(s.push(r)) == mapped_sum(s) + r.len,
        mapped_sum(Seq::<VmRegion>::empty()) == 0,
{
    assert(s.push(r).drop_last() =~= s);
}

impl PgFrame {
    /// With one user more.
    pub open spec fn shared_once_more(self) -> PgFrame {
        PgFrame { rc: self.rc.wrapping_add(1), ..self }
    }

    /// With one user less.
    pub open spec fn shared_once_less(self) -> PgFrame {
        PgFrame { rc: (self.rc - 1) as u64, ..self }
    }
}

/// A frame that gets one user more and one less is as before, and each user counts for one.
pub proof fn law_frame_users_count(f: PgFrame)
    requires
        f.rc < u64::MAX,
    ensures
        f.shared_once_more().rc == f.rc + 1,
        f.shared_once_more().frame_id == f.frame_id,
        f.shared_once_more().shared_once_less() == f,
        f.rc > 0 ==> f.shared_once_less().shared_once_more() == f,
{
}

/// The place that is found for a mapping lies below the kernel's memory, not below the place where the
/// search began, and in no region that there is.
pub proof fn law_found_place_is_free(s: Seq<VmRegion>, base: u64, len: u64, mask: u64, at: u64, i: int)
    requires
        first_free(s, base, len, mask, at),
        0 <= i < s.len(),
    ensures
        base <= at,
        at + len <= KERN_BASE,
        at & mask == 0,
        s[i].base >= at + len || s[i].base + s[i].len <= at,
{
}

} // verus!
