//! Address spaces: the map of a process, and its pages with copy on write.

use vstd::prelude::*;
use crate::consts::{MEM_OFF, PAGE_SZ, VM_WRITE};
use crate::memory::FramePool;
use crate::ordmap::OrdMap;
use crate::vm::{PgFrame, VmMap, VmRegion};

verus! {

/// The address space of a process.
pub struct AddrSpace {
    /// Regions of the process.
    pub vm_map: VmMap,
    /// Physical address of the page table.
    pub page_table_root: u64,
    /// Number that tells address spaces apart.
    pub asid: u16,
    /// Processes that share this address space.
    pub ref_count: u64,
    /// Frame of each page that has one, by the page's address.
    pub cow_pages: OrdMap<PgFrame>,
}

/// An address space, as values.
#[verifier::ext_equal]
pub struct SpaceState {
    /// Regions of the process.
    pub regions: Seq<VmRegion>,
    /// End of the data.
    pub brk: u64,
    /// Where mappings start.
    pub mmap_base: u64,
    /// Physical address of the page table.
    pub page_table_root: u64,
    /// Number that tells address spaces apart.
    pub asid: u16,
    /// Processes that share this address space.
    pub ref_count: u64,
    /// Frame of each page that has one.
    pub pages: Map<u64, PgFrame>,
}

impl SpaceState {
    /// An empty address space.
    pub open spec fn fresh(asid: u16) -> SpaceState {
        SpaceState {
            regions: Seq::empty(),
            brk: 0x0040_0000,
            mmap_base: 0x7000_0000,
            page_table_root: 0,
            asid,
            ref_count: 1,
            pages: Map::empty(),
        }
    }

    /// The address space of a child.
    pub open spec fn child(self, asid: u16) -> SpaceState {
        SpaceState {
            regions: child_regions(self.regions),
            page_table_root: 0,
            asid,
            ref_count: 1,
            pages: forked_pages(self.pages),
            ..self
        }
    }

    /// The address space of a parent after the child was made.
    pub open spec fn forked(self) -> SpaceState {
        SpaceState { regions: forked_regions(self.regions), pages: forked_pages(self.pages), ..self }
    }
}

/// First address of the page in which `addr` lies.
pub open spec fn page_of(addr: u64) -> u64 {
    (addr - addr % PAGE_SZ) as u64
}

/// `x & !(PAGE_SZ - 1)` is the page's first address, and `x & (PAGE_SZ - 1)` the offset in it.
pub proof fn lemma_page_mask(x: u64)
    ensures
        x & !4095u64 == page_of(x),
        x & 4095u64 == x % PAGE_SZ,
{
    assert(x & !4095u64 == x - x % 4096 && x & 4095u64 == x % 4096) by (bit_vector);
}

/// A region as a child gets it.
pub open spec fn child_region(r: VmRegion) -> VmRegion {
    VmRegion { base: r.base, len: r.len, flags: r.flags, offset: 0, tag: 0, ref_count: 1 }
}

/// The regions as a child gets them.
pub open spec fn child_regions(s: Seq<VmRegion>) -> Seq<VmRegion> {
    s.map_values(|r: VmRegion| child_region(r))
}

/// A region of the parent after a fork: one that can be written counts one more sharer.
pub open spec fn forked_region(r: VmRegion) -> VmRegion {
    if r.flags & VM_WRITE != 0 {
        VmRegion { ref_count: r.ref_count.wrapping_add(1), ..r }
    } else {
        r
    }
}

/// The regions of the parent after a fork.
pub open spec fn forked_regions(s: Seq<VmRegion>) -> Seq<VmRegion> {
    s.map_values(|r: VmRegion| forked_region(r))
}

/// Frames after a fork, of parent and child alike: each counts one more reference.
pub open spec fn forked_pages(m: Map<u64, PgFrame>) -> Map<u64, PgFrame> {
    m.map_values(|f: PgFrame| PgFrame { frame_id: f.frame_id, rc: f.rc.wrapping_add(1) })
}

/// Page addresses in `lo..hi`.
pub open spec fn within(lo: int, hi: int) -> spec_fn(u64) -> bool {
    |a: u64| lo <= a < hi
}

/// Pages with more than one reference.
pub open spec fn shared_page(m: Map<u64, PgFrame>) -> spec_fn(u64) -> bool {
    |a: u64| m[a].rc > 1
}

/// Region `i` is the one in which `addr` lies.
pub open spec fn region_at(s: Seq<VmRegion>, addr: u64, i: int) -> bool {
    0 <= i < s.len() && s[i].covers(addr as int)
}

/// Some region that can be written holds `addr`.
pub open spec fn writable_at(s: Seq<VmRegion>, addr: u64) -> bool {
    exists|i: int| #[trigger] region_at(s, addr, i) && s[i].flags & VM_WRITE != 0
}

/// The regions with new permissions where they meet `lo..hi`.
pub open spec fn protected(s: Seq<VmRegion>, lo: int, hi: int, flags: u32) -> Seq<VmRegion> {
    s.map_values(|r: VmRegion| if crate::vm::meets(r, lo, hi) { VmRegion { flags, ..r } } else { r })
}

impl AddrSpace {
    /// The address space as values.
    pub open spec fn view(&self) -> SpaceState {
        SpaceState {
            regions: self.vm_map.regions@,
            brk: self.vm_map.brk,
            mmap_base: self.vm_map.mmap_base,
            page_table_root: self.page_table_root,
            asid: self.asid,
            ref_count: self.ref_count,
            pages: self.cow_pages@,
        }
    }

    /// The map is well-formed, and so is the table of pages.
    pub open spec fn wf(&self) -> bool {
        self.vm_map.wf() && self.cow_pages.wf()
    }

    /// An empty address space.
    pub fn new(asid: u16) -> (a: Self)
        ensures
            a.wf(),
            a@ == SpaceState::fresh(asid),
            a.vm_map.regions@ == Seq::<VmRegion>::empty(),
            a.vm_map.brk == 0x0040_0000,
            a.vm_map.mmap_base == 0x7000_0000,
            a.page_table_root == 0,
            a.asid == asid,
            a.ref_count == 1,
            a.cow_pages@ == Map::<u64, PgFrame>::empty(),
    {
        AddrSpace { vm_map: VmMap::new(), page_table_root: 0, asid, ref_count: 1, cow_pages: OrdMap::new() }
    }

    /// The address space of a child: the parent's regions, and its pages with a further reference
    /// to each frame, so that the first write to a page gives the writer a frame of its own.
    pub fn fork_from(parent: &mut AddrSpace, new_asid: u16) -> (child: Self)
        requires
            old(parent).wf(),
        ensures
            child.wf(),
            child@ == old(parent)@.child(new_asid),
            final(parent)@ == old(parent)@.forked(),
            child.vm_map.regions@ == child_regions(old(parent).vm_map.regions@),
            child.vm_map.brk == old(parent).vm_map.brk,
            child.vm_map.mmap_base == old(parent).vm_map.mmap_base,
            child.page_table_root == 0,
            child.asid == new_asid,
            child.ref_count == 1,
            child.cow_pages@ == forked_pages(old(parent).cow_pages@),
            final(parent).wf(),
            final(parent).vm_map.regions@ == forked_regions(old(parent).vm_map.regions@),
            final(parent).vm_map.brk == old(parent).vm_map.brk,
            final(parent).vm_map.mmap_base == old(parent).vm_map.mmap_base,
            final(parent).page_table_root == old(parent).page_table_root,
            final(parent).asid == old(parent).asid,
            final(parent).ref_count == old(parent).ref_count,
            final(parent).cow_pages@ == forked_pages(old(parent).cow_pages@),
    {
        let mut child = AddrSpace::new(new_asid);
        child.vm_map.brk = parent.vm_map.brk;
        child.vm_map.mmap_base = parent.vm_map.mmap_base;
        let ghost s = parent.vm_map.regions@;
        let ghost pages = parent.cow_pages@;
        let mut i: usize = 0;
        while i < parent.vm_map.regions.len()
            invariant
                s == old(parent).vm_map.regions@,
                crate::vm::regions_wf(s),
                pages == old(parent).cow_pages@,
                parent.cow_pages == old(parent).cow_pages,
                parent.vm_map.brk == old(parent).vm_map.brk,
                parent.vm_map.mmap_base == old(parent).vm_map.mmap_base,
                parent.page_table_root == old(parent).page_table_root,
                parent.asid == old(parent).asid,
                parent.ref_count == old(parent).ref_count,
                parent.vm_map.regions@.len() == s.len(),
                i <= s.len(),
                forall|j: int| 0 <= j < i ==> #[trigger] parent.vm_map.regions@[j] == forked_region(s[j]),
                forall|j: int| i <= j < s.len() ==> #[trigger] parent.vm_map.regions@[j] == s[j],
                child.wf(),
                child.vm_map.regions@ == child_regions(s.take(i as int)),
                child.vm_map.brk == parent.vm_map.brk,
                child.vm_map.mmap_base == parent.vm_map.mmap_base,
                child.page_table_root == 0,
                child.asid == new_asid,
                child.ref_count == 1,
                child.cow_pages@ == Map::<u64, PgFrame>::empty(),
            decreases s.len() - i,
        {
            let r = parent.vm_map.regions[i];
            if r.flags & VM_WRITE != 0 {
                let _prev: u64 = parent.vm_map.regions[i].ref_up();
            }
            let ghost have = child.vm_map.regions@;
            proof {
                let c = child_regions(s.take(i as int));
                assert(s[i as int].len > 0 && s[i as int].fits());
                assert forall|j: int| 0 <= j < have.len() implies !crate::vm::meets(#[trigger] have[j], r.base as int, r.stop()) by {
                    assert(s[j].stop() <= s[i as int].base);
                }
                assert(crate::vm::unmapped(have, r.base as int, r.base.wrapping_add(r.len) as int));
            }
            let _done = child.vm_map.insert(VmRegion::new(r.base, r.len, r.flags));
            proof {
                let w = choose|w: int|
                    #[trigger] crate::vm::slot_for(have, r.base, w) && child.vm_map.regions@ == have.insert(w, child_region(r));
                if w < have.len() {
                    assert(have[w].base > r.base);
                    assert(s[w].stop() <= s[i as int].base);
                    assert(s[w].len > 0);
                }
                assert(w == have.len());
                assert(have.insert(w, child_region(r)) =~= child_regions(s.take(i + 1)));
            }
            i += 1;
        }
        proof {
            assert(s.take(i as int) =~= s);
            assert(parent.vm_map.regions@ =~= forked_regions(s));
            let f = parent.vm_map.regions@;
            assert forall|j: int| 0 <= j < f.len() implies (#[trigger] f[j]).len > 0 && f[j].fits() by {
                assert(s[j].len > 0 && s[j].fits());
            }
            assert forall|x: int, y: int| 0 <= x < y < f.len() implies (#[trigger] f[x]).stop() <= (#[trigger] f[y]).base by {
                assert(s[x].stop() <= s[y].base);
            }
            parent.cow_pages.lemma_key_seq();
        }
        let ghost ks = parent.cow_pages.key_seq();
        let mut k: usize = 0;
        while k < parent.cow_pages.len()
            invariant
                parent.cow_pages.wf(),
                parent.cow_pages.key_seq() == ks,
                crate::seqs::ascending(ks),
                forall|a: u64| #![auto] ks.contains(a) <==> pages.dom().contains(a),
                k <= ks.len(),
                parent.vm_map.regions@ == forked_regions(s),
                parent.vm_map.brk == old(parent).vm_map.brk,
                parent.vm_map.mmap_base == old(parent).vm_map.mmap_base,
                parent.page_table_root == old(parent).page_table_root,
                parent.asid == old(parent).asid,
                parent.ref_count == old(parent).ref_count,
                parent.cow_pages@.dom() == pages.dom(),
                forall|j: int| 0 <= j < k ==> parent.cow_pages@[#[trigger] ks[j]] == forked_pages(pages)[ks[j]],
                forall|j: int| k <= j < ks.len() ==> parent.cow_pages@[#[trigger] ks[j]] == pages[ks[j]],
                child.wf(),
                child.vm_map.regions@ == child_regions(s),
                child.vm_map.brk == parent.vm_map.brk,
                child.vm_map.mmap_base == parent.vm_map.mmap_base,
                child.page_table_root == 0,
                child.asid == new_asid,
                child.ref_count == 1,
                forall|a: u64| #[trigger] child.cow_pages@.dom().contains(a) <==> ks.take(k as int).contains(a),
                forall|j: int| 0 <= j < k ==> child.cow_pages@[#[trigger] ks[j]] == forked_pages(pages)[ks[j]],
            decreases ks.len() - k,
        {
            let addr: u64 = parent.cow_pages.key_at(k);
            let ghost before = child.cow_pages@;
            let frame = parent.cow_pages.val_at_mut(k);
            let _prev: u64 = frame.up();
            let copy = PgFrame::with_rc(frame.frame_id(), frame.count());
            let _none = child.cow_pages.insert(addr, copy);
            proof {
                assert(ks[k as int] == addr);
                assert(ks.contains(addr));
                assert(parent.cow_pages@.dom() =~= pages.dom());
                assert forall|j: int| 0 <= j < ks.len() && j != k implies ks[j] != addr by {
                    if j < k {
                        assert(ks[j] < ks[k as int]);
                    } else {
                        assert(ks[k as int] < ks[j]);
                    }
                }
                assert forall|a: u64| #[trigger] child.cow_pages@.dom().contains(a) <==> ks.take(k + 1).contains(a) by {
                    let t = ks.take(k as int);
                    let t1 = ks.take(k + 1);
                    if t.contains(a) {
                        let w = choose|w: int| 0 <= w < t.len() && t[w] == a;
                        assert(t1[w] == a);
                    }
                    if t1.contains(a) && a != addr {
                        let w = choose|w: int| 0 <= w < t1.len() && t1[w] == a;
                        assert(t[w] == a);
                    }
                    assert(t1[k as int] == addr);
                    assert(before.dom().contains(a) <==> t.contains(a));
                }
            }
            k += 1;
        }
        proof {
            parent.cow_pages.lemma_key_seq();
            assert(ks.take(k as int) =~= ks);
            let f = forked_pages(pages);
            assert forall|a: u64| pages.dom().contains(a) implies parent.cow_pages@[a] == f[a] && child.cow_pages@[a] == f[a] by {
                assert(ks.contains(a));
                let w = choose|w: int| 0 <= w < ks.len() && ks[w] == a;
                assert(parent.cow_pages@[ks[w]] == f[ks[w]]);
            }
            assert(parent.cow_pages@ =~= f);
            assert(child.cow_pages@ =~= f);
        }
        child
    }
}

/// Regions after region `i` was split at `addr`: it ends there, and a new one goes on.
pub open spec fn split_regions(s: Seq<VmRegion>, i: int, addr: u64) -> Seq<VmRegion> {
    let r = s[i];
    let off = (addr - r.base) as u64;
    s.update(i, VmRegion { len: off, ..r }).insert(
        i + 1,
        VmRegion { base: addr, len: (r.len - off) as u64, flags: r.flags, offset: 0, tag: 0, ref_count: 1 },
    )
}

impl AddrSpace {
    /// All frames in use belong to a pool of `n` frames.
    pub open spec fn frames_within(&self, n: nat) -> bool {
        forall|a: u64| self.cow_pages@.dom().contains(a) ==> (#[trigger] self.cow_pages@[a]).frame_id < n
    }

    /// Page `page` has a frame to itself.
    pub open spec fn owns_page(&self, page: u64) -> bool {
        self.cow_pages@.dom().contains(page) && self.cow_pages@[page].rc <= 1
    }

    /// Handles a write to `addr` and returns the physical address of the page. A page with a frame
    /// to itself stays where it is; a shared one moves to a new frame with a copy of its contents;
    /// one without a frame gets one.
    pub fn handle_cow_fault(&mut self, addr: u64, pool: &mut FramePool) -> (r: Result<u64, &'static str>)
        requires
            old(self).wf(),
            old(pool).wf(),
            old(pool).addressable(),
            old(self).frames_within(old(pool).slots@.len()),
        ensures
            final(self).wf(),
            final(pool).wf(),
            final(pool).slots@.len() == old(pool).slots@.len(),
            final(self).frames_within(final(pool).slots@.len()),
            final(self).vm_map == old(self).vm_map,
            final(self).page_table_root == old(self).page_table_root,
            final(self).asid == old(self).asid,
            final(self).ref_count == old(self).ref_count,
            ({
                let page = page_of(addr);
                if !writable_at(old(self).vm_map.regions@, addr) {
                    &&& r == Err::<u64, &'static str>("segfault")
                    &&& final(self).cow_pages@ == old(self).cow_pages@
                    &&& *final(pool) == *old(pool)
                } else if old(self).owns_page(page) {
                    &&& r == Ok::<u64, &'static str>(crate::vm::frame_addr(old(self).cow_pages@[page].frame_id) as u64)
                    &&& final(self).cow_pages@ == old(self).cow_pages@
                    &&& *final(pool) == *old(pool)
                } else if crate::memory::none_free(old(pool).slots@) {
                    &&& r == Err::<u64, &'static str>("oom")
                    &&& final(self).cow_pages@ == old(self).cow_pages@
                    &&& *final(pool) == *old(pool)
                } else {
                    exists|i: usize|
                        {
                            &&& #[trigger] crate::memory::first_free(old(pool).slots@, i as int)
                            &&& r == Ok::<u64, &'static str>(crate::vm::frame_addr(i) as u64)
                            &&& final(pool).slots@ == old(pool).slots@.update(i as int, false)
                            &&& final(self).cow_pages@ == old(self).cow_pages@.insert(page, PgFrame { frame_id: i, rc: 1 })
                            &&& if old(self).cow_pages@.dom().contains(page) {
                                &&& final(pool).frame(i as int) == old(pool).frame(old(self).cow_pages@[page].frame_id as int)
                                &&& forall|f: int| f != i ==> #[trigger] final(pool).frame(f) == old(pool).frame(f)
                            } else {
                                final(pool).frames == old(pool).frames
                            }
                        }
                }
            }),
    {
        proof {
            lemma_page_mask(addr);
        }
        let page: u64 = addr & !(PAGE_SZ - 1);
        let ghost s = self.vm_map.regions@;
        let idx = match self.vm_map.find_index(addr) {
            Some(i) => i,
            None => {
                proof {
                    assert forall|i: int| !region_at(s, addr, i) by {
                        if region_at(s, addr, i) {
                            assert(s[i].covers(addr as int));
                        }
                    }
                }
                return Err("segfault");
            },
        };
        proof {
            assert(region_at(s, addr, idx as int));
            lemma_region_unique(s, addr, idx as int);
        }
        if self.vm_map.regions[idx].flags & VM_WRITE == 0 {
            return Err("segfault");
        }
        let mut old_frame: Option<usize> = None;
        if let Some(frame) = self.cow_pages.get(page) {
            if frame.count() <= 1 {
                return Ok(frame.phys_addr());
            }
            old_frame = Some(frame.frame_id());
        }
        let new_id = match pool.get_inner() {
            Some(i) => i,
            None => {
                return Err("oom");
            },
        };
        let ghost taken_pool = *pool;
        assert(crate::memory::first_free(old(pool).slots@, new_id as int));
        if let Some(from) = old_frame {
            let data = pool.read_frame(from);
            pool.write_frame(new_id, 0, data.as_slice());
            proof {
                assert(pool.frame(new_id as int) =~= old(pool).frame(from as int));
                assert forall|f: int| #[trigger] taken_pool.frame(f) == old(pool).frame(f) by {}
            }
        }
        let _prev = self.cow_pages.insert(page, PgFrame::with_rc(new_id, 1));
        Ok(new_id as u64 * PAGE_SZ + MEM_OFF)
    }

    /// Takes the regions that meet the `len` bytes from `start` on out of the map, and the pages in
    /// that range out of the table. Returns how many regions and pages went.
    pub fn unmap_range(&mut self, start: u64, len: u64) -> (n: usize)
        requires
            old(self).wf(),
            start + len <= u64::MAX,
            old(self).vm_map.regions@.len() + old(self).cow_pages@.len() <= usize::MAX,
            forall|a: u64|
                old(self).cow_pages@.dom().contains(a) && start <= a < start + len ==> (#[trigger] old(self).cow_pages@[a]).rc > 0,
        ensures
            final(self).wf(),
            final(self).vm_map.regions@ == old(self).vm_map.regions@.filter(
                crate::vm::clear_of(start as int, start + len),
            ),
            final(self).vm_map.brk == old(self).vm_map.brk,
            final(self).vm_map.mmap_base == old(self).vm_map.mmap_base,
            forall|a: u64|
                #[trigger] final(self).cow_pages@.dom().contains(a) <==> old(self).cow_pages@.dom().contains(a) && !(start <= a < start
                    + len),
            forall|a: u64|
                final(self).cow_pages@.dom().contains(a) ==> #[trigger] final(self).cow_pages@[a] == old(self).cow_pages@[a],
            n == old(self).vm_map.regions@.len() - final(self).vm_map.regions@.len() + old(self).cow_pages.key_seq().filter(
                within(start as int, start + len),
            ).len(),
            final(self).page_table_root == old(self).page_table_root,
            final(self).asid == old(self).asid,
            final(self).ref_count == old(self).ref_count,
    {
        let end: u64 = start + len;
        let removed = self.vm_map.remove_range(start, len);
        let ghost pages = self.cow_pages@;
        let ghost ks = self.cow_pages.key_seq();
        let ghost p = within(start as int, start + len);
        let keys = self.cow_pages.keys();
        let mut count: usize = 0;
        let mut k: usize = 0;
        proof {
            self.cow_pages.lemma_key_seq();
            crate::seqs::lemma_filter_ends(ks, p);
        }
        while k < keys.len()
            invariant
                keys@ == ks,
                crate::seqs::ascending(ks),
                forall|a: u64| #![auto] ks.contains(a) <==> pages.dom().contains(a),
                end == start + len,
                p == within(start as int, start + len),
                k <= ks.len(),
                count <= k,
                count == ks.take(k as int).filter(p).len(),
                self.cow_pages.wf(),
                pages == old(self).cow_pages@,
                forall|a: u64|
                    #[trigger] self.cow_pages@.dom().contains(a) <==> pages.dom().contains(a) && !(start <= a < end && ks.take(
                        k as int,
                    ).contains(a)),
                forall|a: u64| self.cow_pages@.dom().contains(a) ==> #[trigger] self.cow_pages@[a] == pages[a],
                self.vm_map.wf(),
                self.vm_map.regions@ == old(self).vm_map.regions@.filter(crate::vm::clear_of(start as int, start + len)),
                self.vm_map.brk == old(self).vm_map.brk,
                self.vm_map.mmap_base == old(self).vm_map.mmap_base,
                self.page_table_root == old(self).page_table_root,
                self.asid == old(self).asid,
                self.ref_count == old(self).ref_count,
            decreases ks.len() - k,
        {
            let a: u64 = keys[k];
            let ghost before = self.cow_pages@;
            proof {
                crate::seqs::lemma_filter_step(ks, k as int, p);
            }
            if a >= start && a < end {
                let _frame = self.cow_pages.remove(a);
                count += 1;
            }
            proof {
                let t = ks.take(k as int);
                let t1 = ks.take(k + 1);
                assert forall|b: u64| #[trigger] t1.contains(b) <==> t.contains(b) || b == a by {
                    if t.contains(b) {
                        let w = choose|w: int| 0 <= w < t.len() && t[w] == b;
                        assert(t1[w] == b);
                    }
                    if t1.contains(b) && b != a {
                        let w = choose|w: int| 0 <= w < t1.len() && t1[w] == b;
                        assert(t[w] == b);
                    }
                    assert(t1[k as int] == a);
                }
                assert forall|b: u64|
                    #[trigger] self.cow_pages@.dom().contains(b) <==> pages.dom().contains(b) && !(start <= b < end && t1.contains(b)) by {
                    assert(before.dom().contains(b) <==> pages.dom().contains(b) && !(start <= b < end && t.contains(b)));
                    assert(t1.contains(b) <==> t.contains(b) || b == a);
                }
            }
            k += 1;
        }
        proof {
            assert(ks.take(k as int) =~= ks);
            crate::seqs::lemma_filter_ends(ks, p);
        }
        removed + count
    }

    /// Sets the permissions of all regions that meet the `len` bytes from `start` on.
    pub fn protect(&mut self, start: u64, len: u64, new_flags: u32) -> (r: Result<(), &'static str>)
        requires
            old(self).wf(),
            start + len <= u64::MAX,
        ensures
            r is Ok,
            final(self).wf(),
            final(self).vm_map.regions@ == protected(old(self).vm_map.regions@, start as int, start + len, new_flags),
            final(self).vm_map.brk == old(self).vm_map.brk,
            final(self).vm_map.mmap_base == old(self).vm_map.mmap_base,
            final(self).cow_pages == old(self).cow_pages,
            final(self).page_table_root == old(self).page_table_root,
            final(self).asid == old(self).asid,
            final(self).ref_count == old(self).ref_count,
    {
        let end: u64 = start + len;
        let ghost s = self.vm_map.regions@;
        let ghost goal = protected(s, start as int, start + len, new_flags);
        let mut i: usize = 0;
        while i < self.vm_map.regions.len()
            invariant
                s == old(self).vm_map.regions@,
                crate::vm::regions_wf(s),
                end == start + len,
                goal == protected(s, start as int, start + len, new_flags),
                self.vm_map.regions@.len() == s.len(),
                i <= s.len(),
                forall|j: int| 0 <= j < i ==> #[trigger] self.vm_map.regions@[j] == goal[j],
                forall|j: int| i <= j < s.len() ==> #[trigger] self.vm_map.regions@[j] == s[j],
                self.vm_map.brk == old(self).vm_map.brk,
                self.vm_map.mmap_base == old(self).vm_map.mmap_base,
                self.cow_pages == old(self).cow_pages,
                self.page_table_root == old(self).page_table_root,
                self.asid == old(self).asid,
                self.ref_count == old(self).ref_count,
            decreases s.len() - i,
        {
            assert(s[i as int].fits());
            if self.vm_map.regions[i].base < end && self.vm_map.regions[i].end() > start {
                self.vm_map.regions[i].flags = new_flags;
            }
            i += 1;
        }
        proof {
            assert(self.vm_map.regions@ =~= goal);
            assert forall|j: int| 0 <= j < goal.len() implies (#[trigger] goal[j]).len > 0 && goal[j].fits() by {
                assert(s[j].len > 0 && s[j].fits());
            }
            assert forall|x: int, y: int| 0 <= x < y < goal.len() implies (#[trigger] goal[x]).stop() <= (#[trigger] goal[y]).base by {
                assert(s[x].stop() <= s[y].base);
            }
        }
        Ok(())
    }

    /// Number of pages that have a frame.
    pub fn rss_pages(&self) -> (n: usize)
        requires
            self.wf(),
        ensures
            n == self.cow_pages@.len(),
    {
        self.cow_pages.len()
    }

    /// Number of pages whose frame has more than one reference.
    pub fn cow_sharers(&self) -> (n: usize)
        requires
            self.wf(),
        ensures
            n == self.cow_pages.key_seq().filter(shared_page(self.cow_pages@)).len(),
    {
        let ghost ks = self.cow_pages.key_seq();
        let ghost p = shared_page(self.cow_pages@);
        let mut n: usize = 0;
        let mut i: usize = 0;
        proof {
            crate::seqs::lemma_filter_ends(ks, p);
            self.cow_pages.lemma_key_seq();
        }
        while i < self.cow_pages.len()
            invariant
                self.wf(),
                ks == self.cow_pages.key_seq(),
                p == shared_page(self.cow_pages@),
                i <= ks.len(),
                n <= i,
                n == ks.take(i as int).filter(p).len(),
            decreases ks.len() - i,
        {
            proof {
                crate::seqs::lemma_filter_step(ks, i as int, p);
            }
            if self.cow_pages.val_at(i).count() > 1 {
                n += 1;
            }
            i += 1;
        }
        proof {
            crate::seqs::lemma_filter_ends(ks, p);
        }
        n
    }

    /// Splits the region in which `addr` lies, so that its second part starts there. An address
    /// outside all regions, and one that is a region's first, are refused.
    pub fn split_region(&mut self, addr: u64) -> (r: Result<(), &'static str>)
        requires
            old(self).wf(),
        ensures
            final(self).wf(),
            final(self).vm_map.brk == old(self).vm_map.brk,
            final(self).vm_map.mmap_base == old(self).vm_map.mmap_base,
            final(self).cow_pages == old(self).cow_pages,
            final(self).page_table_root == old(self).page_table_root,
            final(self).asid == old(self).asid,
            final(self).ref_count == old(self).ref_count,
            (forall|i: int| !region_at(old(self).vm_map.regions@, addr, i)) ==> r == Err::<(), &'static str>("enomem")
                && final(self).vm_map.regions@ == old(self).vm_map.regions@,
            forall|i: int|
                #[trigger] region_at(old(self).vm_map.regions@, addr, i) ==> if addr == old(self).vm_map.regions@[i].base {
                    r == Err::<(), &'static str>("einval") && final(self).vm_map.regions@ == old(self).vm_map.regions@
                } else {
                    r is Ok && final(self).vm_map.regions@ == split_regions(old(self).vm_map.regions@, i, addr)
                },
    {
        let ghost s = self.vm_map.regions@;
        let idx = match self.vm_map.find_index(addr) {
            Some(i) => i,
            None => {
                proof {
                    assert forall|i: int| !region_at(s, addr, i) by {
                        if region_at(s, addr, i) {
                            assert(s[i].covers(addr as int));
                        }
                    }
                }
                return Err("enomem");
            },
        };
        proof {
            assert(region_at(s, addr, idx as int));
            lemma_region_unique(s, addr, idx as int);
        }
        let region = self.vm_map.regions[idx];
        let offset: u64 = addr - region.base;
        if offset == 0 || offset >= region.len {
            return Err("einval");
        }
        let second = VmRegion::new(addr, region.len - offset, region.flags);
        let n = self.vm_map.regions.len();
        assert(idx < n);
        self.vm_map.regions[idx].len = offset;
        self.vm_map.regions.insert(idx + 1, second);
        proof {
            let a = self.vm_map.regions@;
            assert(a =~= split_regions(s, idx as int, addr));
            assert forall|i: int| 0 <= i < a.len() implies (#[trigger] a[i]).len > 0 && a[i].fits() by {
                let j = if i <= idx { i } else { i - 1 };
                assert(s[j].len > 0 && s[j].fits());
            }
            assert forall|i: int, j: int| 0 <= i < j < a.len() implies (#[trigger] a[i]).stop() <= (#[trigger] a[j]).base by {
                let si = if i <= idx { i } else { i - 1 };
                let sj = if j <= idx { j } else { j - 1 };
                assert(s[si].fits() && s[sj].fits());
                if si < sj {
                    assert(s[si].stop() <= s[sj].base);
                }
            }
        }
        Ok(())
    }
}

proof fn lemma_region_unique(s: Seq<VmRegion>, addr: u64, i: int)
    requires
        crate::vm::regions_wf(s),
        region_at(s, addr, i),
    ensures
        forall|j: int| #[trigger] region_at(s, addr, j) ==> j == i,
{
    assert forall|j: int| #[trigger] region_at(s, addr, j) implies j == i by {
        if j < i {
            assert(s[j].stop() <= s[i].base);
        } else if i < j {
            assert(s[i].stop() <= s[j].base);
        }
    }
}

/// Copy on write keeps processes apart: the frame that a writer gets is not one that is in use,
/// so what it writes there leaves the contents of every frame in use as they were.
pub proof fn law_cow_isolates(before: FramePool, after: FramePool, got: int, other: int)
    requires
        crate::memory::first_free(before.slots@, got),
        0 <= other < before.slots@.len(),
        !before.slots@[other],
        forall|f: int| f != got ==> #[trigger] after.frame(f) == before.frame(f),
    ensures
        got != other,
        after.frame(other) == before.frame(other),
{
}

/// A fork changes no mapping: the child has the parent's regions, and page for page the parent's
/// frames.
pub proof fn law_fork_shares(s: Seq<VmRegion>, pages: Map<u64, PgFrame>, a: u64)
    requires
        pages.dom().contains(a),
    ensures
        forked_pages(pages).dom() == pages.dom(),
        forked_pages(pages)[a].frame_id == pages[a].frame_id,
        child_regions(s).len() == s.len(),
        forall|i: int|
            0 <= i < s.len() ==> (#[trigger] child_regions(s)[i]).base == s[i].base && child_regions(s)[i].len == s[i].len
                && child_regions(s)[i].flags == s[i].flags,
{
    assert(forked_pages(pages).dom() =~= pages.dom());
}

/// After a fork a page that was in use has a sharer, so that neither side writes to it in place.
pub proof fn law_fork_shares_pages(pages: Map<u64, PgFrame>, a: u64)
    requires
        pages.dom().contains(a),
        1 <= pages[a].rc < u64::MAX,
    ensures
        forked_pages(pages)[a].rc > 1,
{
}

/// A change of protection gives the new permissions to the regions that meet the range, and to no
/// other; where regions lie does not change.
pub proof fn law_protect_sets_flags(s: Seq<VmRegion>, lo: int, hi: int, flags: u32, i: int, addr: u64)
    requires
        0 <= i < s.len(),
        s[i].fits(),
    ensures
        protected(s, lo, hi, flags).len() == s.len(),
        protected(s, lo, hi, flags)[i].covers(addr as int) == s[i].covers(addr as int),
        s[i].covers(addr as int) && lo <= addr < hi ==> protected(s, lo, hi, flags)[i].flags == flags,
        s[i].stop() <= lo || hi <= s[i].base ==> protected(s, lo, hi, flags)[i] == s[i],
{
}

/// Splitting a region changes neither which addresses are mapped nor with which permissions.
pub proof fn law_split_changes_nothing(s: Seq<VmRegion>, i: int, addr: u64, a: u64)
    requires
        region_at(s, addr, i),
        s[i].fits(),
        addr != s[i].base,
    ensures
        ({
            let t = split_regions(s, i, addr);
            &&& t.len() == s.len() + 1
            &&& s[i].covers(a as int) <==> t[i].covers(a as int) || t[i + 1].covers(a as int)
            &&& !(t[i].covers(a as int) && t[i + 1].covers(a as int))
            &&& t[i].stop() == addr && t[i + 1].base == addr
            &&& t[i].flags == s[i].flags && t[i + 1].flags == s[i].flags
            &&& forall|j: int| 0 <= j < i ==> #[trigger] t[j] == s[j]
            &&& forall|j: int| i < j < s.len() ==> t[j + 1] == #[trigger] s[j]
        }),
{
}

} // verus!
