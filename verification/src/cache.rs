//! Caches: pages with least-recently-used eviction, the registry of kernel objects, and the block
//! cache in front of the disk.

use vstd::prelude::*;
use crate::io::{Disk, ERRS_FOREVER};
use crate::locking::Spin;
use crate::ordmap::OrdMap;
use crate::seqs::drop_all;

verus! {

// ---------------------------------------------------------------------------------------------
// Page cache
// ---------------------------------------------------------------------------------------------

/// One cached page.
pub struct PageCacheEntry {
    /// The page's number.
    pub page_id: u64,
    /// The page's bytes.
    pub data: Vec<u8>,
    /// Changed and not yet written back.
    pub dirty: bool,
    /// Tick of the last access.
    pub access_tick: u64,
    /// How often the page is pinned; a pinned page is not evicted.
    pub pin_count: u64,
}

/// Pages with a bound on their number; the least recently used page that is not pinned goes first.
pub struct PageCache {
    /// Pages by their numbers.
    pub entries: OrdMap<PageCacheEntry>,
    /// Number of pages from which on an insertion evicts first.
    pub capacity: usize,
    /// Look-ups that found their page.
    pub hits: u64,
    /// Look-ups that did not.
    pub misses: u64,
    /// Pages evicted.
    pub evictions: u64,
    /// Page numbers, the most recently used last.
    pub lru_order: Vec<u64>,
}

/// Page `id` is not pinned.
pub open spec fn unpinned(entries: Map<u64, PageCacheEntry>) -> spec_fn(u64) -> bool {
    |id: u64| entries[id].pin_count == 0
}

/// Page `id` lies in `start..end` and is dirty.
pub open spec fn dirty_within(entries: Map<u64, PageCacheEntry>, start: int, end: int) -> spec_fn(u64) -> bool {
    |id: u64| start <= id < end && entries[id].dirty
}

/// `entries` with the pages in `start..end` clean.
pub open spec fn cleaned(entries: Map<u64, PageCacheEntry>, start: int, end: int) -> Map<u64, PageCacheEntry> {
    Map::new(
        |id: u64| entries.dom().contains(id),
        |id: u64|
            if start <= id < end {
                PageCacheEntry { dirty: false, ..entries[id] }
            } else {
                entries[id]
            },
    )
}

/// The pages after page `id` was put in, or replaced.
pub open spec fn with_page(entries: Map<u64, PageCacheEntry>, id: u64, data: Vec<u8>, now: u64) -> Map<u64, PageCacheEntry> {
    entries.insert(id, PageCacheEntry { page_id: id, data, dirty: false, access_tick: now, pin_count: 0 })
}

/// The order of use after page `id` was used.
pub open spec fn used_last(order: Seq<u64>, id: u64) -> Seq<u64> {
    crate::seqs::without(order, id).push(id)
}

impl PageCache {
    /// Pages are filed under their numbers, and exactly the cached pages are in the order of use.
    pub open spec fn wf(&self) -> bool {
        &&& self.entries.wf()
        &&& forall|id: u64| self.entries@.dom().contains(id) ==> (#[trigger] self.entries@[id]).page_id == id
        &&& forall|id: u64| #[trigger] self.lru_order@.contains(id) <==> self.entries@.dom().contains(id)
    }

    /// The page that goes next: the first one in the order of use that is not pinned.
    pub open spec fn victim(&self) -> Option<u64> {
        let free = self.lru_order@.filter(unpinned(self.entries@));
        if free.len() == 0 {
            None
        } else {
            Some(free[0])
        }
    }

    /// Pages, order of use and eviction count after an eviction.
    pub open spec fn after_evict(&self) -> (Map<u64, PageCacheEntry>, Seq<u64>, u64) {
        match self.victim() {
            Some(id) => (
                self.entries@.remove(id),
                crate::seqs::without(self.lru_order@, id),
                self.evictions.wrapping_add(1),
            ),
            None => (self.entries@, self.lru_order@, self.evictions),
        }
    }

    /// An empty cache.
    pub fn new(capacity: usize) -> (c: Self)
        ensures
            c.wf(),
            c.capacity == capacity,
            c.entries@ == Map::<u64, PageCacheEntry>::empty(),
            c.lru_order@ == Seq::<u64>::empty(),
            c.hits == 0,
            c.misses == 0,
            c.evictions == 0,
    {
        PageCache { entries: OrdMap::new(), capacity, hits: 0, misses: 0, evictions: 0, lru_order: Vec::new() }
    }

    /// The bytes of a page, which becomes the most recently used one.
    pub fn lookup(&mut self, page_id: u64, now: u64) -> (r: Option<&Vec<u8>>)
        requires
            old(self).wf(),
        ensures
            final(self).wf(),
            r is Some <==> old(self).entries@.dom().contains(page_id),
            r matches Some(d) ==> {
                &&& *d == old(self).entries@[page_id].data
                &&& final(self).hits == old(self).hits.wrapping_add(1)
                &&& final(self).misses == old(self).misses
                &&& final(self).lru_order@ == crate::seqs::without(old(self).lru_order@, page_id).push(page_id)
                &&& final(self).lru_order@ == used_last(old(self).lru_order@, page_id)
                &&& final(self).entries@ == old(self).entries@.insert(
                    page_id,
                    PageCacheEntry { access_tick: now, ..old(self).entries@[page_id] },
                )
            },
            r is None ==> {
                &&& final(self).hits == old(self).hits
                &&& final(self).misses == old(self).misses.wrapping_add(1)
                &&& final(self).lru_order == old(self).lru_order
                &&& final(self).entries == old(self).entries
            },
            final(self).evictions == old(self).evictions,
            final(self).capacity == old(self).capacity,
    {
        if !self.entries.contains_key(page_id) {
            self.misses = self.misses.wrapping_add(1);
            return None;
        }
        self.hits = self.hits.wrapping_add(1);
        let mut order = drop_all(&self.lru_order, page_id);
        proof {
            crate::seqs::lemma_filter_contains(self.lru_order@, crate::seqs::other_than(page_id));
        }
        let ghost kept = order@;
        order.push(page_id);
        proof {
            assert forall|id: u64| #[trigger] order@.contains(id) <==> self.entries@.dom().contains(id) by {
                if kept.contains(id) {
                    let i = choose|i: int| 0 <= i < kept.len() && kept[i] == id;
                    assert(order@[i] == id);
                }
                if order@.contains(id) && id != page_id {
                    let i = choose|i: int| 0 <= i < order@.len() && order@[i] == id;
                    assert(kept[i] == id);
                }
                assert(order@[kept.len() as int] == page_id);
                if self.entries@.dom().contains(id) {
                    assert(self.lru_order@.contains(id));
                }
            }
        }
        self.lru_order = order;
        if let Some(e) = self.entries.get_mut(page_id) {
            e.access_tick = now;
        }
        match self.entries.get(page_id) {
            Some(e) => Some(&e.data),
            None => None,
        }
    }

    /// Files a page as the most recently used one, in place of one with its number. A full cache
    /// evicts first, if it can.
    pub fn insert(&mut self, page_id: u64, data: Vec<u8>, now: u64)
        requires
            old(self).wf(),
        ensures
            final(self).wf(),
            ({
                let base = if old(self).entries@.len() >= old(self).capacity {
                    old(self).after_evict()
                } else {
                    (old(self).entries@, old(self).lru_order@, old(self).evictions)
                };
                &&& final(self).entries@ == base.0.insert(
                    page_id,
                    PageCacheEntry { page_id, data, dirty: false, access_tick: now, pin_count: 0 },
                )
                &&& final(self).entries@ == with_page(base.0, page_id, data, now)
                &&& final(self).lru_order@ == crate::seqs::without(base.1, page_id).push(page_id)
                &&& final(self).lru_order@ == used_last(base.1, page_id)
                &&& final(self).evictions == base.2
            }),
            final(self).hits == old(self).hits,
            final(self).misses == old(self).misses,
            final(self).capacity == old(self).capacity,
    {
        if self.entries.len() >= self.capacity {
            self.evict_lru();
        }
        let ghost all = self.lru_order@;
        let mut order = drop_all(&self.lru_order, page_id);
        let ghost kept = order@;
        order.push(page_id);
        self.lru_order = order;
        let entry = PageCacheEntry { page_id, data, dirty: false, access_tick: now, pin_count: 0 };
        let ghost was = self.entries@;
        let _old = self.entries.insert(page_id, entry);
        proof {
            crate::seqs::lemma_filter_contains(all, crate::seqs::other_than(page_id));
            assert forall|id: u64| #[trigger] self.lru_order@.contains(id) <==> self.entries@.dom().contains(id) by {
                if kept.contains(id) {
                    let i = choose|i: int| 0 <= i < kept.len() && kept[i] == id;
                    assert(self.lru_order@[i] == id);
                }
                if self.lru_order@.contains(id) && id != page_id {
                    let i = choose|i: int| 0 <= i < self.lru_order@.len() && self.lru_order@[i] == id;
                    assert(kept[i] == id);
                    assert(kept.contains(id));
                }
                assert(self.lru_order@[kept.len() as int] == page_id);
                if was.dom().contains(id) {
                    assert(all.contains(id));
                }
            }
        }
    }

    /// Evicts the least recently used page that is not pinned; `false` where all are pinned.
    pub fn evict_lru(&mut self) -> (b: bool)
        requires
            old(self).wf(),
        ensures
            final(self).wf(),
            b == (old(self).victim() is Some),
            (final(self).entries@, final(self).lru_order@, final(self).evictions) == old(self).after_evict(),
            final(self).hits == old(self).hits,
            final(self).misses == old(self).misses,
            final(self).capacity == old(self).capacity,
    {
        let ghost p = unpinned(self.entries@);
        let ghost order = self.lru_order@;
        proof {
            crate::seqs::lemma_filter_ends(order, p);
        }
        let mut i: usize = 0;
        while i < self.lru_order.len()
            invariant
                *self == *old(self),
                self.wf(),
                i <= order.len(),
                order == self.lru_order@,
                p == unpinned(self.entries@),
                order.take(i as int).filter(p).len() == 0,
            decreases order.len() - i,
        {
            let id: u64 = self.lru_order[i];
            proof {
                assert(order.contains(order[i as int]));
                crate::seqs::lemma_filter_step(order, i as int, p);
            }
            let mut free = false;
            if let Some(e) = self.entries.get(id) {
                free = e.pin_count == 0;
            }
            if free {
                proof {
                    assert(order =~= order.take(i + 1) + order.skip(i + 1));
                    Seq::filter_distributes_over_add(order.take(i + 1), order.skip(i + 1), p);
                    assert(order.filter(p)[0] == id);
                    crate::seqs::lemma_filter_contains(order, crate::seqs::other_than(id));
                }
                let _gone = self.entries.remove(id);
                let rest = drop_all(&self.lru_order, id);
                self.lru_order = rest;
                self.evictions = self.evictions.wrapping_add(1);
                return true;
            }
            i += 1;
        }
        proof {
            crate::seqs::lemma_filter_ends(order, p);
        }
        false
    }

    /// Marks a cached page as dirty.
    pub fn mark_dirty(&mut self, page_id: u64)
        requires
            old(self).wf(),
        ensures
            final(self).wf(),
            old(self).entries@.dom().contains(page_id) ==> final(self).entries@ == old(self).entries@.insert(
                page_id,
                PageCacheEntry { dirty: true, ..old(self).entries@[page_id] },
            ),
            !old(self).entries@.dom().contains(page_id) ==> final(self).entries@ == old(self).entries@,
            final(self).lru_order == old(self).lru_order,
            final(self).evictions == old(self).evictions,
            final(self).hits == old(self).hits,
            final(self).misses == old(self).misses,
            final(self).capacity == old(self).capacity,
            final(self).entries@ == dirtied(old(self).entries@, page_id),
    {
        if let Some(e) = self.entries.get_mut(page_id) {
            e.dirty = true;
        }
    }

    /// Writes all dirty pages back; returns their number.
    pub fn writeback_all(&mut self) -> (n: usize)
        requires
            old(self).wf(),
        ensures
            final(self).wf(),
            final(self).entries@ == cleaned(old(self).entries@, 0, u64::MAX + 1),
            n == old(self).entries.key_seq().filter(dirty_within(old(self).entries@, 0, u64::MAX + 1)).len(),
            final(self).lru_order == old(self).lru_order,
            final(self).evictions == old(self).evictions,
            final(self).hits == old(self).hits,
            final(self).misses == old(self).misses,
            final(self).capacity == old(self).capacity,
    {
        self.clean_pages(0, 0, true)
    }

    /// Cleans the pages in `start..end`, or all of them; returns how many were dirty.
    fn clean_pages(&mut self, start: u64, end: u64, all: bool) -> (n: usize)
        requires
            old(self).wf(),
            all ==> start == 0,
        ensures
            final(self).wf(),
            ({
                let stop = if all { u64::MAX + 1 } else { end as int };
                &&& final(self).entries@ == cleaned(old(self).entries@, start as int, stop)
                &&& n == old(self).entries.key_seq().filter(dirty_within(old(self).entries@, start as int, stop)).len()
            }),
            final(self).lru_order == old(self).lru_order,
            final(self).evictions == old(self).evictions,
            final(self).hits == old(self).hits,
            final(self).misses == old(self).misses,
            final(self).capacity == old(self).capacity,
    {
        let ghost stop = if all { u64::MAX + 1 } else { end as int };
        let ghost was = self.entries@;
        let ghost ks = self.entries.key_seq();
        let ghost p = dirty_within(was, start as int, stop);
        let mut n: usize = 0;
        let mut i: usize = 0;
        proof {
            self.entries.lemma_key_seq();
            crate::seqs::lemma_filter_ends(ks, p);
        }
        while i < self.entries.len()
            invariant
                self.entries.wf(),
                self.entries.key_seq() == ks,
                i <= ks.len(),
                n <= i,
                n == ks.take(i as int).filter(p).len(),
                stop == (if all { u64::MAX + 1 } else { end as int }),
                p == dirty_within(was, start as int, stop),
                all ==> start == 0,
                crate::seqs::ascending(ks),
                forall|k: u64| #![auto] ks.contains(k) <==> was.dom().contains(k),
                self.entries@.dom() == was.dom(),
                forall|j: int| 0 <= j < i ==> self.entries@[#[trigger] ks[j]] == cleaned(was, start as int, stop)[ks[j]],
                forall|j: int| i <= j < ks.len() ==> self.entries@[#[trigger] ks[j]] == was[ks[j]],
                self.lru_order == old(self).lru_order,
                self.evictions == old(self).evictions,
                self.hits == old(self).hits,
                self.misses == old(self).misses,
                self.capacity == old(self).capacity,
            decreases ks.len() - i,
        {
            let id: u64 = self.entries.key_at(i);
            proof {
                assert(ks[i as int] == id);
                assert(ks.contains(id));
                crate::seqs::lemma_filter_step(ks, i as int, p);
            }
            let ghost mid = self.entries@;
            if id >= start && (all || id < end) {
                let e = self.entries.val_at_mut(i);
                if e.dirty {
                    e.dirty = false;
                    n += 1;
                }
                proof {
                    assert(self.entries@.dom() =~= was.dom());
                    assert forall|j: int| i < j < ks.len() implies self.entries@[#[trigger] ks[j]] == was[ks[j]] by {
                        assert(ks[j] != id);
                    }
                    assert forall|j: int| 0 <= j < i implies self.entries@[#[trigger] ks[j]] == cleaned(was, start as int, stop)[ks[j]] by {
                        assert(ks[j] != id);
                    }
                }
            }
            i += 1;
        }
        proof {
            crate::seqs::lemma_filter_ends(ks, p);
            assert forall|k: u64| was.dom().contains(k) implies self.entries@[k] == cleaned(was, start as int, stop)[k] by {
                assert(ks.contains(k));
                let j = choose|j: int| 0 <= j < ks.len() && ks[j] == k;
                assert(self.entries@[ks[j]] == cleaned(was, start as int, stop)[ks[j]]);
            }
            assert(self.entries@ =~= cleaned(was, start as int, stop));
        }
        n
    }

    /// Hits, misses and evictions.
    pub fn stats(&self) -> (r: (u64, u64, u64))
        ensures
            r == (self.hits, self.misses, self.evictions),
    {
        (self.hits, self.misses, self.evictions)
    }

    /// Pins a cached page once more; `false` where it is not cached.
    pub fn pin(&mut self, page_id: u64) -> (b: bool)
        requires
            old(self).wf(),
            old(self).entries@.dom().contains(page_id) ==> old(self).entries@[page_id].pin_count < u64::MAX,
        ensures
            final(self).wf(),
            b == old(self).entries@.dom().contains(page_id),
            b ==> final(self).entries@ == old(self).entries@.insert(
                page_id,
                PageCacheEntry {
                    pin_count: (old(self).entries@[page_id].pin_count + 1) as u64,
                    ..old(self).entries@[page_id]
                },
            ),
            !b ==> final(self).entries@ == old(self).entries@,
            final(self).lru_order == old(self).lru_order,
            final(self).evictions == old(self).evictions,
            final(self).hits == old(self).hits,
            final(self).misses == old(self).misses,
            final(self).capacity == old(self).capacity,
            final(self).entries@ == pinned_once_more(old(self).entries@, page_id),
    {
        if let Some(e) = self.entries.get_mut(page_id) {
            e.pin_count = e.pin_count + 1;
            true
        } else {
            false
        }
    }

    /// Takes one pin off a cached page, if there is one; `false` where it is not cached.
    pub fn unpin(&mut self, page_id: u64) -> (b: bool)
        requires
            old(self).wf(),
        ensures
            final(self).wf(),
            b == old(self).entries@.dom().contains(page_id),
            b ==> final(self).entries@ == old(self).entries@.insert(
                page_id,
                PageCacheEntry {
                    pin_count: if old(self).entries@[page_id].pin_count > 0 {
                        (old(self).entries@[page_id].pin_count - 1) as u64
                    } else {
                        0
                    },
                    ..old(self).entries@[page_id]
                },
            ),
            !b ==> final(self).entries@ == old(self).entries@,
            final(self).lru_order == old(self).lru_order,
            final(self).evictions == old(self).evictions,
            final(self).hits == old(self).hits,
            final(self).misses == old(self).misses,
            final(self).capacity == old(self).capacity,
            final(self).entries@ == pinned_once_less(old(self).entries@, page_id),
    {
        if let Some(e) = self.entries.get_mut(page_id) {
            if e.pin_count > 0 {
                e.pin_count = e.pin_count - 1;
            }
            true
        } else {
            false
        }
    }

    /// Drops a page from the cache; `false` where it is not cached.
    pub fn invalidate(&mut self, page_id: u64) -> (b: bool)
        requires
            old(self).wf(),
        ensures
            final(self).wf(),
            b == old(self).entries@.dom().contains(page_id),
            final(self).entries@ == old(self).entries@.remove(page_id),
            b ==> final(self).lru_order@ == crate::seqs::without(old(self).lru_order@, page_id),
            !b ==> final(self).lru_order == old(self).lru_order,
            final(self).evictions == old(self).evictions,
            final(self).hits == old(self).hits,
            final(self).misses == old(self).misses,
            final(self).capacity == old(self).capacity,
    {
        let had = self.entries.contains_key(page_id);
        if had {
            proof {
                crate::seqs::lemma_filter_contains(self.lru_order@, crate::seqs::other_than(page_id));
            }
            let _gone = self.entries.remove(page_id);
            let rest = drop_all(&self.lru_order, page_id);
            self.lru_order = rest;
        } else {
            assert(self.entries@.remove(page_id) =~= self.entries@);
        }
        had
    }

    /// Writes the dirty pages in `start..end` back; returns their number.
    pub fn flush_range(&mut self, start: u64, end: u64) -> (n: usize)
        requires
            old(self).wf(),
        ensures
            final(self).wf(),
            final(self).entries@ == cleaned(old(self).entries@, start as int, end as int),
            n == old(self).entries.key_seq().filter(dirty_within(old(self).entries@, start as int, end as int)).len(),
            final(self).lru_order == old(self).lru_order,
            final(self).evictions == old(self).evictions,
            final(self).hits == old(self).hits,
            final(self).misses == old(self).misses,
            final(self).capacity == old(self).capacity,
    {
        self.clean_pages(start, end, false)
    }
}

/// A pinned page is never evicted.
pub proof fn law_pinned_stays(c: PageCache, id: u64)
    requires
        c.wf(),
        c.entries@.dom().contains(id),
        c.entries@[id].pin_count > 0,
    ensures
        c.after_evict().0.dom().contains(id),
        c.after_evict().0[id] == c.entries@[id],
        c.after_evict().1.contains(id),
{
    crate::seqs::lemma_filter_contains(c.lru_order@, unpinned(c.entries@));
    assert(c.lru_order@.contains(id));
    if let Some(v) = c.victim() {
        let free = c.lru_order@.filter(unpinned(c.entries@));
        assert(free.contains(free[0]));
        assert(v != id);
        crate::seqs::lemma_filter_contains(c.lru_order@, crate::seqs::other_than(v));
    }
}

/// Eviction finds a victim whenever some page is not pinned.
pub proof fn law_evict_succeeds(c: PageCache, id: u64)
    requires
        c.wf(),
        c.entries@.dom().contains(id),
        c.entries@[id].pin_count == 0,
    ensures
        c.victim() is Some,
{
    crate::seqs::lemma_filter_contains(c.lru_order@, unpinned(c.entries@));
    assert(c.lru_order@.contains(id));
    assert(c.lru_order@.filter(unpinned(c.entries@)).contains(id));
}

// ---------------------------------------------------------------------------------------------
// Kernel objects
// ---------------------------------------------------------------------------------------------

/// One registered kernel object.
#[derive(Clone, Copy)]
pub struct KObjEntry {
    /// The object's number.
    pub obj_id: u64,
    /// The object's type.
    pub type_tag: u32,
    /// Process that owns it.
    pub owner_pid: u64,
    /// Tick of its registration.
    pub created_tick: u64,
    /// References to it; at zero it can be swept.
    pub ref_count: u64,
    /// Object that it belongs to.
    pub parent_id: Option<u64>,
}

/// All kernel objects, with an index by type.
pub struct KObjRegistry {
    /// Objects by their numbers.
    pub objects: OrdMap<KObjEntry>,
    /// The next number.
    pub seq: u64,
    /// Numbers of the objects of each type, ascending.
    pub type_index: OrdMap<Vec<u64>>,
}

/// Object `id` has the type `tag`.
pub open spec fn of_type(objects: Map<u64, KObjEntry>, tag: u64) -> spec_fn(u64) -> bool {
    |id: u64| objects[id].type_tag == tag
}

/// Object `id` belongs to process `pid`.
pub open spec fn owned_by(objects: Map<u64, KObjEntry>, pid: u64) -> spec_fn(u64) -> bool {
    |id: u64| objects[id].owner_pid == pid
}

/// Nothing refers to object `id`.
pub open spec fn unreferenced(objects: Map<u64, KObjEntry>) -> spec_fn(u64) -> bool {
    |id: u64| objects[id].ref_count == 0
}

/// Object `id` belongs to another object.
pub open spec fn has_parent(objects: Map<u64, KObjEntry>) -> spec_fn(u64) -> bool {
    |id: u64| objects[id].parent_id is Some
}

/// The edges from parents to the children `ids`.
pub open spec fn edges(objects: Map<u64, KObjEntry>, ids: Seq<u64>) -> Seq<(u64, u64)> {
    ids.map_values(|id: u64| (objects[id].parent_id->0, id))
}

/// Objects to which something refers.
pub open spec fn referenced(objects: Map<u64, KObjEntry>) -> Map<u64, KObjEntry> {
    Map::new(|id: u64| objects.dom().contains(id) && objects[id].ref_count > 0, |id: u64| objects[id])
}

impl KObjRegistry {
    /// What the index lists under `tag`.
    pub open spec fn listed(&self, tag: u64) -> Seq<u64> {
        if self.type_index@.dom().contains(tag) {
            self.type_index@[tag]@
        } else {
            Seq::empty()
        }
    }

    /// Numbers are below the next one, and the index lists exactly the objects of each type.
    pub open spec fn wf(&self) -> bool {
        &&& self.objects.wf()
        &&& self.type_index.wf()
        &&& forall|id: u64|
            self.objects@.dom().contains(id) ==> id < self.seq && (#[trigger] self.objects@[id]).obj_id == id
        &&& forall|tag: u64| crate::seqs::ascending(#[trigger] self.listed(tag))
        &&& forall|tag: u64, id: u64|
            #[trigger] self.listed(tag).contains(id) <==> self.objects@.dom().contains(id) && self.objects@[id].type_tag == tag
    }

    proof fn lemma_listed(&self, tag: u64)
        requires
            self.wf(),
        ensures
            self.listed(tag) == self.objects.key_seq().filter(of_type(self.objects@, tag)),
    {
        let ks = self.objects.key_seq();
        let p = of_type(self.objects@, tag);
        self.objects.lemma_key_seq();
        crate::seqs::lemma_filter_ascending(ks, p);
        crate::seqs::lemma_filter_contains(ks, p);
        assert forall|x: u64| self.listed(tag).contains(x) <==> ks.filter(p).contains(x) by {
            assert(ks.contains(x) <==> self.objects@.dom().contains(x));
        }
        crate::seqs::lemma_ascending_unique(self.listed(tag), ks.filter(p));
    }

    /// An empty registry; numbers start at one.
    pub fn new() -> (r: Self)
        ensures
            r.wf(),
            r.objects@ == Map::<u64, KObjEntry>::empty(),
            r.seq == 1,
            r.type_index@ == Map::<u64, Vec<u64>>::empty(),
    {
        KObjRegistry { objects: OrdMap::new(), seq: 1, type_index: OrdMap::new() }
    }

    fn add_object(&mut self, type_tag: u32, owner_pid: u64, parent_id: Option<u64>, now: u64) -> (id: u64)
        requires
            old(self).wf(),
            old(self).seq < u64::MAX,
        ensures
            final(self).wf(),
            id == old(self).seq,
            final(self).seq == old(self).seq + 1,
            final(self).objects@ == old(self).objects@.insert(
                id,
                KObjEntry { obj_id: id, type_tag, owner_pid, created_tick: now, ref_count: 1, parent_id },
            ),
    {
        let id: u64 = self.seq;
        self.seq = id + 1;
        let entry = KObjEntry { obj_id: id, type_tag, owner_pid, created_tick: now, ref_count: 1, parent_id };
        let ghost before = *old(self);
        let _none = self.objects.insert(id, entry);
        let tag: u64 = type_tag as u64;
        let mut done = false;
        if let Some(list) = self.type_index.get_mut(tag) {
            list.push(id);
            done = true;
        }
        if !done {
            let mut list: Vec<u64> = Vec::new();
            list.push(id);
            let _none = self.type_index.insert(tag, list);
        }
        proof {
            assert(self.listed(tag) =~= before.listed(tag).push(id));
            assert(forall|t: u64| t != tag ==> #[trigger] self.listed(t) == before.listed(t));
            assert forall|t: u64| crate::seqs::ascending(#[trigger] self.listed(t)) by {
                assert(crate::seqs::ascending(before.listed(t)));
                if t == tag {
                    let b = before.listed(tag);
                    assert forall|i: int| 0 <= i < b.len() implies b[i] < id by {
                        assert(before.listed(tag).contains(b[i]));
                    }
                }
            }
            assert forall|t: u64, x: u64|
                #[trigger] self.listed(t).contains(x) <==> self.objects@.dom().contains(x) && self.objects@[x].type_tag == t by {
                assert(before.listed(t).contains(x) <==> before.objects@.dom().contains(x) && before.objects@[x].type_tag == t);
                if t == tag {
                    let b = before.listed(tag);
                    let a = self.listed(tag);
                    if b.contains(x) {
                        let i = choose|i: int| 0 <= i < b.len() && b[i] == x;
                        assert(a[i] == x);
                    }
                    if a.contains(x) && x != id {
                        let i = choose|i: int| 0 <= i < a.len() && a[i] == x;
                        assert(b[i] == x);
                    }
                    assert(a[b.len() as int] == id);
                }
            }
        }
        id
    }

    /// Registers an object with one reference and returns its number.
    pub fn register(&mut self, type_tag: u32, owner_pid: u64, now: u64) -> (id: u64)
        requires
            old(self).wf(),
            old(self).seq < u64::MAX,
        ensures
            final(self).wf(),
            id == old(self).seq,
            final(self).seq == old(self).seq + 1,
            final(self).objects@ == old(self).objects@.insert(
                id,
                KObjEntry { obj_id: id, type_tag, owner_pid, created_tick: now, ref_count: 1, parent_id: None },
            ),
            (id, final(self).objects@) == made_known(old(self).objects@, old(self).seq, type_tag, owner_pid, None, now),
    {
        self.add_object(type_tag, owner_pid, None, now)
    }

    /// Registers an object that belongs to `parent`.
    pub fn register_child(&mut self, type_tag: u32, owner_pid: u64, parent: u64, now: u64) -> (id: u64)
        requires
            old(self).wf(),
            old(self).seq < u64::MAX,
        ensures
            final(self).wf(),
            id == old(self).seq,
            final(self).seq == old(self).seq + 1,
            final(self).objects@ == old(self).objects@.insert(
                id,
                KObjEntry { obj_id: id, type_tag, owner_pid, created_tick: now, ref_count: 1, parent_id: Some(parent) },
            ),
            (id, final(self).objects@) == made_known(old(self).objects@, old(self).seq, type_tag, owner_pid, Some(parent), now),
    {
        self.add_object(type_tag, owner_pid, Some(parent), now)
    }

    /// Drops an object, also from the index; `false` where there is none.
    pub fn unregister(&mut self, id: u64) -> (b: bool)
        requires
            old(self).wf(),
        ensures
            final(self).wf(),
            b == old(self).objects@.dom().contains(id),
            final(self).objects@ == old(self).objects@.remove(id),
            final(self).seq == old(self).seq,
            (b, final(self).objects@) == forgotten(old(self).objects@, id),
    {
        let ghost before = *old(self);
        match self.objects.remove(id) {
            Some(entry) => {
                let tag: u64 = entry.type_tag as u64;
                assert(before.listed(tag).contains(id));
                if let Some(list) = self.type_index.get_mut(tag) {
                    let rest = drop_all(list, id);
                    *list = rest;
                }
                proof {
                    let b = before.listed(tag);
                    crate::seqs::lemma_filter_contains(b, crate::seqs::other_than(id));
                    crate::seqs::lemma_filter_ascending(b, crate::seqs::other_than(id));
                    assert(self.listed(tag) == crate::seqs::without(b, id));
                    assert(forall|t: u64| t != tag ==> #[trigger] self.listed(t) == before.listed(t));
                    assert forall|t: u64| crate::seqs::ascending(#[trigger] self.listed(t)) by {
                        assert(crate::seqs::ascending(before.listed(t)));
                    }
                    assert forall|t: u64, x: u64|
                        #[trigger] self.listed(t).contains(x) <==> self.objects@.dom().contains(x) && self.objects@[x].type_tag
                            == t by {
                        assert(before.listed(t).contains(x) <==> before.objects@.dom().contains(x) && before.objects@[x].type_tag == t);
                    }
                }
                true
            },
            None => {
                assert(self.objects@ =~= before.objects@);
                assert forall|t: u64, x: u64|
                    #[trigger] self.listed(t).contains(x) <==> self.objects@.dom().contains(x) && self.objects@[x].type_tag == t by {
                    assert(before.listed(t).contains(x) <==> before.objects@.dom().contains(x) && before.objects@[x].type_tag == t);
                }
                assert forall|t: u64| crate::seqs::ascending(#[trigger] self.listed(t)) by {
                    assert(crate::seqs::ascending(before.listed(t)));
                }
                false
            },
        }
    }

    /// Numbers of the objects of a type, ascending.
    pub fn find_by_type(&self, tag: u32) -> (ids: Vec<u64>)
        requires
            self.wf(),
        ensures
            ids@ == self.objects.key_seq().filter(of_type(self.objects@, tag as u64)),
    {
        proof {
            self.lemma_listed(tag as u64);
        }
        match self.type_index.get(tag as u64) {
            Some(list) => {
                let mut ids: Vec<u64> = Vec::new();
                ids.extend_from_slice(list.as_slice());
                assert(ids@ =~= list@);
                ids
            },
            None => Vec::new(),
        }
    }

    /// The edges from parents to children, by ascending child.
    pub fn dump_graph(&self) -> (r: Vec<(u64, u64)>)
        requires
            self.wf(),
        ensures
            r@ == edges(self.objects@, self.objects.key_seq().filter(has_parent(self.objects@))),
    {
        let ghost ks = self.objects.key_seq();
        let ghost p = has_parent(self.objects@);
        let mut r: Vec<(u64, u64)> = Vec::new();
        let mut i: usize = 0;
        proof {
            self.objects.lemma_key_seq();
            crate::seqs::lemma_filter_ends(ks, p);
        }
        assert(edges(self.objects@, Seq::<u64>::empty()) =~= Seq::<(u64, u64)>::empty());
        while i < self.objects.len()
            invariant
                self.wf(),
                ks == self.objects.key_seq(),
                i <= ks.len(),
                p == has_parent(self.objects@),
                r@ == edges(self.objects@, ks.take(i as int).filter(p)),
            decreases ks.len() - i,
        {
            proof {
                crate::seqs::lemma_filter_step(ks, i as int, p);
            }
            let id: u64 = self.objects.key_at(i);
            let ghost f = ks.take(i as int).filter(p);
            if let Some(parent) = self.objects.val_at(i).parent_id {
                r.push((parent, id));
                assert(edges(self.objects@, f.push(id)) =~= edges(self.objects@, f).push((parent, id)));
            }
            i += 1;
        }
        proof {
            self.objects.lemma_key_seq();
            crate::seqs::lemma_filter_ends(ks, p);
        }
        r
    }

    /// Drops all objects that nothing refers to; returns their number.
    pub fn gc_sweep(&mut self) -> (n: usize)
        requires
            old(self).wf(),
        ensures
            final(self).wf(),
            final(self).objects@ == referenced(old(self).objects@),
            n == old(self).objects.key_seq().filter(unreferenced(old(self).objects@)).len(),
            final(self).seq == old(self).seq,
    {
        let ghost ks = self.objects.key_seq();
        let ghost objs = self.objects@;
        let ghost p = unreferenced(objs);
        let mut dead: Vec<u64> = Vec::new();
        let mut i: usize = 0;
        proof {
            self.objects.lemma_key_seq();
            crate::seqs::lemma_filter_ends(ks, p);
            crate::seqs::lemma_filter_contains(ks, p);
        }
        while i < self.objects.len()
            invariant
                self.wf(),
                *self == *old(self),
                ks == self.objects.key_seq(),
                objs == self.objects@,
                i <= ks.len(),
                p == unreferenced(objs),
                dead@ == ks.take(i as int).filter(p),
            decreases ks.len() - i,
        {
            proof {
                crate::seqs::lemma_filter_step(ks, i as int, p);
            }
            if self.objects.val_at(i).ref_count == 0 {
                dead.push(self.objects.key_at(i));
            }
            i += 1;
        }
        proof {
            self.objects.lemma_key_seq();
            crate::seqs::lemma_filter_ends(ks, p);
        }
        let mut j: usize = 0;
        while j < dead.len()
            invariant
                self.wf(),
                j <= dead@.len(),
                self.seq == old(self).seq,
                forall|k: u64| #[trigger] self.objects@.dom().contains(k) <==> objs.dom().contains(k) && !dead@.take(j as int).contains(k),
                forall|k: u64| self.objects@.dom().contains(k) ==> #[trigger] self.objects@[k] == objs[k],
            decreases dead@.len() - j,
        {
            let id: u64 = dead[j];
            let ghost prev = dead@.take(j as int);
            let _was = self.unregister(id);
            j += 1;
            proof {
                assert(dead@.take(j as int) =~= prev.push(id));
                assert forall|k: u64| #[trigger] self.objects@.dom().contains(k) <==> objs.dom().contains(k) && !dead@.take(j as int).contains(k) by {
                    let now = dead@.take(j as int);
                    if prev.contains(k) {
                        let w = choose|w: int| 0 <= w < prev.len() && prev[w] == k;
                        assert(now[w] == k);
                    }
                    if now.contains(k) && k != id {
                        let w = choose|w: int| 0 <= w < now.len() && now[w] == k;
                        assert(prev[w] == k);
                    }
                    assert(now[prev.len() as int] == id);
                }
            }
        }
        proof {
            assert(dead@.take(j as int) =~= dead@);
            assert forall|k: u64| #[trigger] self.objects@.dom().contains(k) <==> referenced(objs).dom().contains(k) by {
                assert(dead@.contains(k) <==> ks.contains(k) && p(k));
                assert(ks.contains(k) <==> objs.dom().contains(k));
            }
            assert(self.objects@ =~= referenced(objs));
        }
        dead.len()
    }

    /// Adds a reference to an object; `false` where there is none.
    pub fn ref_up(&mut self, id: u64) -> (b: bool)
        requires
            old(self).wf(),
            old(self).objects@.dom().contains(id) ==> old(self).objects@[id].ref_count < u64::MAX,
        ensures
            final(self).wf(),
            b == old(self).objects@.dom().contains(id),
            b ==> final(self).objects@ == old(self).objects@.insert(
                id,
                KObjEntry { ref_count: (old(self).objects@[id].ref_count + 1) as u64, ..old(self).objects@[id] },
            ),
            !b ==> final(self).objects@ == old(self).objects@,
            final(self).seq == old(self).seq,
            final(self).objects@ == held_more(old(self).objects@, id),
    {
        let ghost before = *old(self);
        let b = match self.objects.get_mut(id) {
            Some(e) => {
                e.ref_count = e.ref_count + 1;
                true
            },
            None => false,
        };
        proof {
            self.lemma_same_index(before);
        }
        b
    }

    /// Takes a reference off an object, down to none; `false` where there is no such object.
    pub fn ref_down(&mut self, id: u64) -> (b: bool)
        requires
            old(self).wf(),
        ensures
            final(self).wf(),
            b == old(self).objects@.dom().contains(id),
            b ==> final(self).objects@ == old(self).objects@.insert(
                id,
                KObjEntry {
                    ref_count: if old(self).objects@[id].ref_count == 0 {
                        0
                    } else {
                        (old(self).objects@[id].ref_count - 1) as u64
                    },
                    ..old(self).objects@[id]
                },
            ),
            !b ==> final(self).objects@ == old(self).objects@,
            final(self).seq == old(self).seq,
            final(self).objects@ == held_less(old(self).objects@, id),
    {
        let ghost before = *old(self);
        let b = match self.objects.get_mut(id) {
            Some(e) => {
                if e.ref_count > 0 {
                    e.ref_count = e.ref_count - 1;
                }
                true
            },
            None => false,
        };
        proof {
            self.lemma_same_index(before);
        }
        b
    }

    /// The invariant needs no more than the numbers and types of the objects.
    proof fn lemma_same_index(&self, before: KObjRegistry)
        requires
            before.wf(),
            self.objects.wf(),
            self.seq == before.seq,
            self.type_index == before.type_index,
            forall|k: u64| #[trigger] self.objects@.dom().contains(k) <==> before.objects@.dom().contains(k),
            forall|k: u64|
                before.objects@.dom().contains(k) ==> (#[trigger] self.objects@[k]).type_tag == before.objects@[k].type_tag
                    && self.objects@[k].obj_id == before.objects@[k].obj_id,
        ensures
            self.wf(),
    {
        assert forall|t: u64| crate::seqs::ascending(#[trigger] self.listed(t)) by {
            assert(crate::seqs::ascending(before.listed(t)));
        }
        assert forall|t: u64, x: u64|
            #[trigger] self.listed(t).contains(x) <==> self.objects@.dom().contains(x) && self.objects@[x].type_tag == t by {
            assert(before.listed(t).contains(x) <==> before.objects@.dom().contains(x) && before.objects@[x].type_tag == t);
        }
        assert forall|id: u64| self.objects@.dom().contains(id) implies id < self.seq && (#[trigger] self.objects@[id]).obj_id == id by {
            assert(before.objects@[id].obj_id == id);
        }
    }

    /// Number of objects.
    pub fn count(&self) -> (n: usize)
        requires
            self.wf(),
        ensures
            n == self.objects@.len(),
    {
        self.objects.len()
    }

    /// Numbers of the objects of a process, ascending.
    pub fn owner_objects(&self, pid: u64) -> (ids: Vec<u64>)
        requires
            self.wf(),
        ensures
            ids@ == self.objects.key_seq().filter(owned_by(self.objects@, pid)),
    {
        let ghost ks = self.objects.key_seq();
        let ghost p = owned_by(self.objects@, pid);
        let mut ids: Vec<u64> = Vec::new();
        let mut i: usize = 0;
        proof {
            self.objects.lemma_key_seq();
            crate::seqs::lemma_filter_ends(ks, p);
        }
        while i < self.objects.len()
            invariant
                self.wf(),
                ks == self.objects.key_seq(),
                i <= ks.len(),
                p == owned_by(self.objects@, pid),
                ids@ == ks.take(i as int).filter(p),
            decreases ks.len() - i,
        {
            proof {
                crate::seqs::lemma_filter_step(ks, i as int, p);
            }
            if self.objects.val_at(i).owner_pid == pid {
                ids.push(self.objects.key_at(i));
            }
            i += 1;
        }
        proof {
            self.objects.lemma_key_seq();
            crate::seqs::lemma_filter_ends(ks, p);
        }
        ids
    }
}

/// An object that is referred to survives every sweep.
pub proof fn law_sweep_spares_referenced(r: KObjRegistry, id: u64)
    requires
        r.wf(),
        r.objects@.dom().contains(id),
    ensures
        referenced(r.objects@).dom().contains(id) <==> r.objects@[id].ref_count > 0,
        r.objects@[id].ref_count > 0 ==> referenced(r.objects@)[id] == r.objects@[id],
{
}

// ---------------------------------------------------------------------------------------------
// Block cache
// ---------------------------------------------------------------------------------------------

/// One cached block.
pub struct CacheSlot {
    /// The block's number.
    pub id: u64,
    /// The block's bytes.
    pub payload: Vec<u8>,
    /// Changed and not yet on the disk.
    pub modified: bool,
}

/// A cached block as values: its number, its bytes and whether it is modified.
pub type Line = (u64, Seq<u8>, bool);

impl CacheSlot {
    /// The block as values.
    pub open spec fn view(&self) -> Line {
        (self.id, self.payload@, self.modified)
    }
}

/// Slots as values.
pub open spec fn lines(items: Seq<CacheSlot>) -> Seq<Line> {
    items.map_values(|s: CacheSlot| s@)
}

/// Blocks that share a lock.
pub struct CacheChain {
    /// Lock of the chain; free between operations.
    pub lk: Spin,
    /// Blocks of the chain, in the order in which they came in.
    pub items: Vec<CacheSlot>,
}

impl CacheChain {
    /// An empty chain.
    pub fn new() -> (c: Self)
        ensures
            !c.lk.v,
            c.items@ == Seq::<CacheSlot>::empty(),
    {
        CacheChain { lk: Spin::new(), items: Vec::new() }
    }
}

/// Blocks of the disk, spread over chains.
pub struct BlockCache {
    /// The chains.
    pub chains: Vec<CacheChain>,
    /// Number of chains.
    pub width: usize,
}

/// The chain to which block `k` belongs among `width` chains.
pub open spec fn chain_of(k: u64, width: usize) -> int {
    (k ^ (k >> 7)) as int % width as int
}

/// Block `k` is in slot `i`.
pub open spec fn holds(items: Seq<CacheSlot>, k: u64, i: int) -> bool {
    0 <= i < items.len() && items[i].id == k
}

/// Block `k` is among `items`.
pub open spec fn has_block(items: Seq<CacheSlot>, k: u64) -> bool {
    exists|i: int| holds(items, k, i)
}

/// No block is in two slots.
pub open spec fn distinct_ids(items: Seq<CacheSlot>) -> bool {
    forall|i: int, j: int| 0 <= i < j < items.len() ==> (#[trigger] items[i]).id != (#[trigger] items[j]).id
}

/// Numbers and bytes of the modified blocks, in order.
pub open spec fn dirty_items(items: Seq<Line>) -> Seq<(u64, Seq<u8>)>
    decreases items.len(),
{
    if items.len() == 0 {
        Seq::empty()
    } else {
        let d = dirty_items(items.drop_last());
        if items.last().2 {
            d.push((items.last().0, items.last().1))
        } else {
            d
        }
    }
}

/// Numbers and bytes of the modified blocks of all chains, chain after chain.
pub open spec fn dirty_chains(chains: Seq<Seq<Line>>) -> Seq<(u64, Seq<u8>)>
    decreases chains.len(),
{
    if chains.len() == 0 {
        Seq::empty()
    } else {
        dirty_chains(chains.drop_last()) + dirty_items(chains.last())
    }
}

/// Number of blocks in all chains.
pub open spec fn entries_in(chains: Seq<Seq<Line>>) -> nat
    decreases chains.len(),
{
    if chains.len() == 0 {
        0
    } else {
        entries_in(chains.drop_last()) + chains.last().len()
    }
}

/// The chains with a new block at the end of the chain that it belongs to.
pub open spec fn appended(chains: Seq<Seq<Line>>, line: Line) -> Seq<Seq<Line>> {
    let c = chain_of(line.0, chains.len() as usize);
    chains.update(c, chains[c].push(line))
}

/// The chains with `line` in the place of the block with its number.
pub open spec fn replaced(chains: Seq<Seq<Line>>, line: Line) -> Seq<Seq<Line>> {
    let c = chain_of(line.0, chains.len() as usize);
    chains.update(
        c,
        chains[c].map_values(
            |l: Line|
                if l.0 == line.0 {
                    line
                } else {
                    l
                },
        ),
    )
}

/// Not being block `k`.
pub open spec fn other_line(k: u64) -> spec_fn(Line) -> bool {
    |l: Line| l.0 != k
}

/// The chains without block `k`; the others keep their order.
pub open spec fn dropped(chains: Seq<Seq<Line>>, k: u64) -> Seq<Seq<Line>> {
    let c = chain_of(k, chains.len() as usize);
    chains.update(c, chains[c].filter(other_line(k)))
}

/// The chains with no block modified.
pub open spec fn written_back(chains: Seq<Seq<Line>>) -> Seq<Seq<Line>> {
    chains.map_values(|items: Seq<Line>| items.map_values(|l: Line| (l.0, l.1, false)))
}

/// Age that the clock `now` gives to block `id`.
pub open spec fn slot_age(now: u64, id: u64) -> u64 {
    now.wrapping_sub(id.wrapping_mul(3))
}

/// The slot stays when cold ones are evicted: it is unmodified, or its age does not exceed `max_age`.
pub open spec fn stays(now: u64, max_age: u64) -> spec_fn(CacheSlot) -> bool {
    |s: CacheSlot| !s.modified || slot_age(now, s.id) <= max_age
}

/// Block `k` is not cached, and the disk stays broken.
pub open spec fn unreadable(slots: Map<u64, (Seq<u8>, bool)>, disk: Disk, k: u64) -> bool {
    !slots.dom().contains(k) && disk.errs == ERRS_FOREVER
}

/// What reading block `k` yields, if it can be read.
pub open spec fn fetched(slots: Map<u64, (Seq<u8>, bool)>, disk: Disk, k: u64) -> Option<Seq<u8>> {
    if unreadable(slots, disk, k) {
        None
    } else {
        Some(block_of(slots, disk, k))
    }
}

/// What is in memory after block `k` was put there.
pub open spec fn with_block(slots: Map<u64, (Seq<u8>, bool)>, k: u64, data: Seq<u8>) -> Map<u64, (Seq<u8>, bool)> {
    slots.insert(k, (data, true))
}

impl BlockCache {
    /// The chains, as values.
    pub open spec fn view(&self) -> Seq<Seq<Line>> {
        self.chains@.map_values(|c: CacheChain| lines(c.items@))
    }

    /// The slots of the chain of block `k`.
    pub open spec fn items_for(&self, k: u64) -> Seq<CacheSlot> {
        self.chains@[chain_of(k, self.width)].items@
    }

    /// Bytes and modification flag of each cached block.
    pub open spec fn slots(&self) -> Map<u64, (Seq<u8>, bool)> {
        Map::new(
            |k: u64| has_block(self.items_for(k), k),
            |k: u64|
                {
                    let i = choose|i: int| holds(self.items_for(k), k, i);
                    (self.items_for(k)[i].payload@, self.items_for(k)[i].modified)
                },
        )
    }

    /// Each block is in the chain that it belongs to and nowhere else, and no chain is locked.
    pub open spec fn wf(&self) -> bool {
        &&& self.width > 0
        &&& self.chains@.len() == self.width
        &&& forall|c: int| 0 <= c < self.width ==> distinct_ids((#[trigger] self.chains@[c]).items@) && !self.chains@[c].lk.v
        &&& forall|c: int, i: int|
            0 <= c < self.width && 0 <= i < self.chains@[c].items@.len() ==> chain_of(
                (#[trigger] self.chains@[c].items@[i]).id,
                self.width,
            ) == c
    }

    proof fn lemma_slot(&self, c: int, i: int)
        requires
            self.wf(),
            0 <= c < self.width,
            0 <= i < self.chains@[c].items@.len(),
        ensures
            ({
                let s = self.chains@[c].items@[i];
                &&& self.slots().dom().contains(s.id)
                &&& self.slots()[s.id] == (s.payload@, s.modified)
            }),
    {
        let s = self.chains@[c].items@[i];
        let items = self.items_for(s.id);
        assert(items == self.chains@[c].items@);
        assert(holds(items, s.id, i));
        let j = choose|j: int| holds(items, s.id, j);
        if i < j {
            assert(items[i].id != items[j].id);
        } else if j < i {
            assert(items[j].id != items[i].id);
        }
    }

    /// A cache of `w` empty chains. It can be used only if there is one.
    pub fn new(w: usize) -> (b: Self)
        ensures
            b.width == w,
            b.chains@.len() == w,
            forall|c: int| 0 <= c < w ==> (#[trigger] b.chains@[c]).items@.len() == 0 && !b.chains@[c].lk.v,
            b@ == Seq::new(w as nat, |c: int| Seq::<Line>::empty()),
            w > 0 ==> b.wf() && b.slots() == Map::<u64, (Seq<u8>, bool)>::empty(),
    {
        let mut c: Vec<CacheChain> = Vec::new();
        let mut i: usize = 0;
        while i < w
            invariant
                i <= w,
                c@.len() == i,
                forall|k: int| 0 <= k < i ==> (#[trigger] c@[k]).items@.len() == 0 && !c@[k].lk.v,
            decreases w - i,
        {
            c.push(CacheChain::new());
            i += 1;
        }
        let b = BlockCache { chains: c, width: w };
        proof {
            assert forall|c: int| 0 <= c < w implies b@[c] == Seq::<Line>::empty() by {
                assert(b.chains@[c].items@.len() == 0);
                assert(b@[c] =~= Seq::<Line>::empty());
            }
            assert(b@ =~= Seq::new(w as nat, |c: int| Seq::<Line>::empty()));
            if w > 0 {
                assert forall|k: u64| !b.slots().dom().contains(k) by {
                    let ci = chain_of(k, w);
                    assert(b.chains@[ci].items@.len() == 0);
                }
                assert(b.slots() =~= Map::<u64, (Seq<u8>, bool)>::empty());
            }
        }
        b
    }

    /// `k` reduced to the number of chains.
    pub fn idx(&self, k: u64) -> (i: u64)
        requires
            self.width > 0,
        ensures
            i == k as int % self.width as int,
    {
        k % (self.width as u64)
    }

    /// The chain of block `k`.
    fn chain_index(&self, k: u64) -> (c: usize)
        requires
            self.wf(),
        ensures
            c == chain_of(k, self.width),
            c < self.width,
    {
        let mixed: u64 = k ^ (k >> 7);
        (mixed % (self.width as u64)) as usize
    }

    /// The slot of block `k` in chain `c`.
    fn find_slot(&self, c: usize, k: u64) -> (r: Option<usize>)
        requires
            self.wf(),
            c == chain_of(k, self.width),
        ensures
            r is Some <==> self.slots().dom().contains(k),
            r matches Some(i) ==> {
                &&& holds(self.chains@[c as int].items@, k, i as int)
                &&& self.slots()[k] == (
                    self.chains@[c as int].items@[i as int].payload@,
                    self.chains@[c as int].items@[i as int].modified,
                )
            },
    {
        let items = &self.chains[c].items;
        let mut i: usize = 0;
        while i < items.len()
            invariant
                self.wf(),
                c == chain_of(k, self.width),
                items@ == self.chains@[c as int].items@,
                i <= items@.len(),
                forall|j: int| 0 <= j < i ==> (#[trigger] items@[j]).id != k,
            decreases items@.len() - i,
        {
            if items[i].id == k {
                proof {
                    self.lemma_slot(c as int, i as int);
                }
                return Some(i);
            }
            i += 1;
        }
        proof {
            if self.slots().dom().contains(k) {
                let j = choose|j: int| holds(self.items_for(k), k, j);
                assert(items@[j].id == k);
            }
        }
        None
    }

    /// The effect of replacing chain `c` on the cached blocks.
    proof fn lemma_chain_replaced(&self, before: &BlockCache, c: int)
        requires
            before.wf(),
            0 <= c < before.width,
            self.width == before.width,
            self.chains@.len() == before.chains@.len(),
            forall|d: int| 0 <= d < before.width && d != c ==> self.chains@[d] == before.chains@[d],
            distinct_ids(self.chains@[c].items@),
            !self.chains@[c].lk.v,
            forall|i: int|
                0 <= i < self.chains@[c].items@.len() ==> chain_of((#[trigger] self.chains@[c].items@[i]).id, self.width) == c,
        ensures
            self.wf(),
            forall|k: u64|
                chain_of(k, before.width) != c ==> (#[trigger] self.slots().dom().contains(k) <==> before.slots().dom().contains(
                    k,
                )),
            forall|k: u64|
                chain_of(k, before.width) != c && before.slots().dom().contains(k) ==> #[trigger] self.slots()[k]
                    == before.slots()[k],
    {
        assert forall|d: int| 0 <= d < self.width implies distinct_ids((#[trigger] self.chains@[d]).items@) && !self.chains@[d].lk.v by {
            if d != c {
                assert(distinct_ids(before.chains@[d].items@));
            }
        }
        assert forall|d: int, i: int| 0 <= d < self.width && 0 <= i < self.chains@[d].items@.len() implies chain_of(
            (#[trigger] self.chains@[d].items@[i]).id,
            self.width,
        ) == d by {
            if d != c {
                assert(chain_of(before.chains@[d].items@[i].id, before.width) == d);
            }
        }
    }

    /// The bytes of block `k`: from the cache, or read from the disk and kept. `None` where the
    /// disk had to be read and stays broken.
    pub fn fetch(&mut self, k: u64, disk: &mut Disk) -> (r: Option<Vec<u8>>)
        requires
            old(self).wf(),
            old(disk).wf(),
        ensures
            final(self).wf(),
            final(disk).wf(),
            final(self).width == old(self).width,
            r is None <==> unreadable(old(self).slots(), *old(disk), k),
            r matches Some(d) ==> fetched(old(self).slots(), *old(disk), k) == Some(d@),
            r is None ==> fetched(old(self).slots(), *old(disk), k) is None,
            old(self).slots().dom().contains(k) ==> {
                &&& r matches Some(d) && d@ == old(self).slots()[k].0
                &&& *final(self) == *old(self)
                &&& *final(disk) == *old(disk)
            },
            !old(self).slots().dom().contains(k) ==> {
                &&& r matches Some(d) ==> d@ == old(disk).content(k)
                &&& final(self).slots() == (if r is Some {
                    old(self).slots().insert(k, (old(disk).content(k), false))
                } else {
                    old(self).slots()
                })
                &&& final(self)@ == (if r is Some {
                    appended(old(self)@, (k, old(disk).content(k), false))
                } else {
                    old(self)@
                })
                &&& *final(disk) == old(disk).after_read()
            },
    {
        let c = self.chain_index(k);
        if let Some(i) = self.find_slot(c, k) {
            let mut out: Vec<u8> = Vec::new();
            out.extend_from_slice(self.chains[c].items[i].payload.as_slice());
            assert(out@ =~= self.slots()[k].0);
            return Some(out);
        }
        let ghost before = *self;
        let mut block: Vec<u8> = vec![0u8; 512];
        match disk.read_block(k, block.as_mut_slice()) {
            Ok(_) => {},
            Err(_) => {
                return None;
            },
        }
        assert(block@ =~= old(disk).content(k));
        let mut out: Vec<u8> = Vec::new();
        out.extend_from_slice(block.as_slice());
        assert(out@ =~= block@);
        self.push_slot(c, CacheSlot { id: k, payload: block, modified: false });
        Some(out)
    }

    /// Appends a slot for a block that is not cached.
    fn push_slot(&mut self, c: usize, slot: CacheSlot)
        requires
            old(self).wf(),
            c == chain_of(slot.id, old(self).width),
            !old(self).slots().dom().contains(slot.id),
        ensures
            final(self).wf(),
            final(self).width == old(self).width,
            final(self).slots() == old(self).slots().insert(slot.id, (slot.payload@, slot.modified)),
            final(self)@ == appended(old(self)@, slot@),
    {
        let ghost before = *self;
        let ghost k = slot.id;
        let ghost s = slot;
        self.chains[c].items.push(slot);
        proof {
            let bi = before.chains@[c as int].items@;
            let ai = self.chains@[c as int].items@;
            assert forall|i: int, j: int| 0 <= i < j < ai.len() implies (#[trigger] ai[i]).id != (#[trigger] ai[j]).id by {
                if j == bi.len() {
                    if bi[i].id == k {
                        assert(holds(before.items_for(k), k, i));
                    }
                } else {
                    assert(bi[i].id != bi[j].id);
                }
            }
            assert forall|i: int| 0 <= i < ai.len() implies chain_of((#[trigger] ai[i]).id, self.width) == c by {
                if i < bi.len() {
                    assert(chain_of(bi[i].id, before.width) == c);
                }
            }
            self.lemma_chain_replaced(&before, c as int);
            self.lemma_slot(c as int, bi.len() as int);
            assert forall|q: u64| q != k && chain_of(q, before.width) == c implies (#[trigger] self.slots().dom().contains(q)
                <==> before.slots().dom().contains(q)) && (before.slots().dom().contains(q) ==> self.slots()[q]
                == before.slots()[q]) by {
                if before.slots().dom().contains(q) {
                    let i = choose|i: int| holds(before.items_for(q), q, i);
                    before.lemma_slot(c as int, i);
                    assert(ai[i] == bi[i]);
                    self.lemma_slot(c as int, i);
                }
                if self.slots().dom().contains(q) {
                    let i = choose|i: int| holds(self.items_for(q), q, i);
                    assert(holds(before.items_for(q), q, i));
                }
            }
            assert(self.slots() =~= before.slots().insert(k, (s.payload@, s.modified)));
            assert(lines(ai) =~= lines(bi).push(s@));
            assert(self@ =~= appended(before@, s@));
        }
    }

    /// Stores the bytes of block `k` and marks it as modified.
    pub fn put(&mut self, k: u64, data: Vec<u8>)
        requires
            old(self).wf(),
        ensures
            final(self).wf(),
            final(self).width == old(self).width,
            final(self).slots() == with_block(old(self).slots(), k, data@),
            final(self).slots() == old(self).slots().insert(k, (data@, true)),
            final(self)@ == (if old(self).slots().dom().contains(k) {
                replaced(old(self)@, (k, data@, true))
            } else {
                appended(old(self)@, (k, data@, true))
            }),
    {
        let c = self.chain_index(k);
        match self.find_slot(c, k) {
            Some(i) => {
                let ghost before = *self;
                let ghost bytes = data@;
                self.chains[c].items[i].payload = data;
                self.chains[c].items[i].modified = true;
                proof {
                    let bi = before.chains@[c as int].items@;
                    let ai = self.chains@[c as int].items@;
                    assert forall|x: int| 0 <= x < ai.len() implies (#[trigger] ai[x]).id == bi[x].id && (x != i ==> ai[x] == bi[x]) by {}
                    assert forall|x: int, y: int| 0 <= x < y < ai.len() implies (#[trigger] ai[x]).id != (#[trigger] ai[y]).id by {
                        assert(bi[x].id != bi[y].id);
                    }
                    assert forall|x: int| 0 <= x < ai.len() implies chain_of((#[trigger] ai[x]).id, self.width) == c by {
                        assert(chain_of(bi[x].id, before.width) == c);
                    }
                    self.lemma_chain_replaced(&before, c as int);
                    self.lemma_slot(c as int, i as int);
                    assert forall|q: u64| q != k && chain_of(q, before.width) == c implies (#[trigger] self.slots().dom().contains(
                        q,
                    ) <==> before.slots().dom().contains(q)) && (before.slots().dom().contains(q) ==> self.slots()[q]
                        == before.slots()[q]) by {
                        if before.slots().dom().contains(q) {
                            let x = choose|x: int| holds(before.items_for(q), q, x);
                            before.lemma_slot(c as int, x);
                            assert(ai[x] == bi[x]);
                            self.lemma_slot(c as int, x);
                        }
                        if self.slots().dom().contains(q) {
                            let x = choose|x: int| holds(self.items_for(q), q, x);
                            assert(holds(before.items_for(q), q, x));
                        }
                    }
                    assert(self.slots() =~= before.slots().insert(k, (bytes, true)));
                    assert forall|x: int| 0 <= x < ai.len() && x != i implies (#[trigger] bi[x]).id != k by {
                        if x < i {
                            assert(bi[x].id != bi[i as int].id);
                        } else {
                            assert(bi[i as int].id != bi[x].id);
                        }
                    }
                    assert(lines(ai) =~= replaced(before@, (k, bytes, true))[c as int]);
                    assert(self@ =~= replaced(before@, (k, bytes, true)));
                }
            },
            None => {
                self.push_slot(c, CacheSlot { id: k, payload: data, modified: true });
            },
        }
    }
}

proof fn lemma_none_dropped(items: Seq<CacheSlot>, k: u64)
    requires
        forall|x: int| 0 <= x < items.len() ==> (#[trigger] items[x]).id != k,
    ensures
        lines(items).filter(other_line(k)) == lines(items),
    decreases items.len(),
{
    reveal(Seq::filter);
    if items.len() > 0 {
        let t = items.drop_last();
        assert forall|x: int| 0 <= x < t.len() implies (#[trigger] t[x]).id != k by {
            assert(items[x].id != k);
        }
        lemma_none_dropped(t, k);
        assert(lines(items).drop_last() =~= lines(t));
        assert(items[items.len() - 1].id != k);
        assert(lines(items) =~= lines(t).push(items.last()@));
    } else {
        assert(lines(items) =~= Seq::<Line>::empty());
    }
}

proof fn lemma_dropped(items: Seq<CacheSlot>, k: u64, i: int)
    requires
        distinct_ids(items),
        holds(items, k, i),
    ensures
        lines(items).filter(other_line(k)) == lines(items).remove(i),
    decreases items.len(),
{
    reveal(Seq::filter);
    let t = items.drop_last();
    let last = items.len() - 1;
    assert(lines(items).drop_last() =~= lines(t));
    if i == last {
        assert forall|x: int| 0 <= x < t.len() implies (#[trigger] t[x]).id != k by {
            assert(items[x].id != items[last].id);
        }
        lemma_none_dropped(t, k);
        assert(lines(items).remove(i) =~= lines(t));
    } else {
        assert(items[i].id != items[last].id);
        assert(holds(t, k, i));
        lemma_dropped(t, k, i);
        assert(lines(items).remove(i) =~= lines(t).remove(i).push(items.last()@));
    }
}

/// `after` differs from `before` at most in the modification flags, which are off in `0..n`.
spec fn flags_cleared(before: Seq<CacheSlot>, after: Seq<CacheSlot>, n: int) -> bool {
    &&& after.len() == before.len()
    &&& forall|i: int|
        0 <= i < before.len() ==> {
            &&& (#[trigger] after[i]).id == before[i].id
            &&& after[i].payload == before[i].payload
            &&& after[i].modified == (if i < n { false } else { before[i].modified })
        }
}

impl BlockCache {
    /// The cached blocks with none modified.
    pub open spec fn slots_clean(&self) -> Map<u64, (Seq<u8>, bool)> {
        self.slots().map_values(|s: (Seq<u8>, bool)| (s.0, false))
    }

    /// Whether chain `c` holds block `id` and the block is modified.
    pub(crate) fn modified_in(&self, c: usize, id: u64) -> (r: bool)
        requires
            self.wf(),
            c < self.width,
        ensures
            r == (chain_of(id, self.width) == c && self.slots().dom().contains(id) && self.slots()[id].1),
    {
        let mut i: usize = 0;
        while i < self.chains[c].items.len()
            invariant
                self.wf(),
                c < self.width,
                i <= self.chains@[c as int].items@.len(),
                forall|j: int|
                    0 <= j < i ==> (#[trigger] self.chains@[c as int].items@[j]).id != id || !self.chains@[c as int].items@[j].modified,
            decreases self.chains@[c as int].items@.len() - i,
        {
            let s = &self.chains[c].items[i];
            if s.id == id && s.modified {
                proof {
                    self.lemma_slot(c as int, i as int);
                }
                return true;
            }
            i += 1;
        }
        proof {
            if chain_of(id, self.width) == c && self.slots().dom().contains(id) {
                let j = choose|j: int| holds(self.items_for(id), id, j);
                self.lemma_slot(c as int, j);
            }
        }
        false
    }

    /// Writes each modified block to the disk, chain by chain, and clears its mark, also where the
    /// disk refused the write.
    pub fn sync_all(&mut self, disk: &mut Disk)
        requires
            old(self).wf(),
            old(disk).wf(),
        ensures
            final(self).wf(),
            final(disk).wf(),
            final(self).width == old(self).width,
            final(self).slots() == old(self).slots_clean(),
            final(self)@ == written_back(old(self)@),
            final(disk).state() == old(disk).state().wrote_all(dirty_chains(old(self)@)),
            final(disk).journal == old(disk).journal,
            final(disk).label == old(disk).label,
    {
        let ghost before = *self;
        let ghost v = before@;
        let ghost d0 = old(disk).state();
        let mut c: usize = 0;
        assert(v.take(0) =~= Seq::<Seq<Line>>::empty());
        while c < self.chains.len()
            invariant
                before.wf(),
                v == before@,
                disk.wf(),
                disk.journal == old(disk).journal,
                disk.label == old(disk).label,
                self.width == before.width,
                self.chains@.len() == before.chains@.len(),
                c <= before.chains@.len(),
                forall|d: int|
                    0 <= d < c ==> flags_cleared(
                        before.chains@[d].items@,
                        (#[trigger] self.chains@[d]).items@,
                        before.chains@[d].items@.len() as int,
                    ) && self.chains@[d].lk == before.chains@[d].lk,
                forall|d: int| c <= d < before.chains@.len() ==> self.chains@[d] == before.chains@[d],
                disk.state() == d0.wrote_all(dirty_chains(v.take(c as int))),
            decreases before.chains@.len() - c,
        {
            let ghost bi = before.chains@[c as int].items@;
            let ghost li = lines(bi);
            let ghost base = dirty_chains(v.take(c as int));
            let mut i: usize = 0;
            assert(li.take(0) =~= Seq::<Line>::empty());
            assert(base + dirty_items(li.take(0)) =~= base);
            while i < self.chains[c].items.len()
                invariant
                    disk.wf(),
                    disk.journal == old(disk).journal,
                    disk.label == old(disk).label,
                    self.width == before.width,
                    self.chains@.len() == before.chains@.len(),
                    c < before.chains@.len(),
                    bi == before.chains@[c as int].items@,
                    li == lines(bi),
                    i <= bi.len(),
                    forall|d: int|
                        0 <= d < c ==> flags_cleared(
                            before.chains@[d].items@,
                            (#[trigger] self.chains@[d]).items@,
                            before.chains@[d].items@.len() as int,
                        ) && self.chains@[d].lk == before.chains@[d].lk,
                    flags_cleared(bi, self.chains@[c as int].items@, i as int),
                    self.chains@[c as int].lk == before.chains@[c as int].lk,
                    forall|d: int| c < d < before.chains@.len() ==> self.chains@[d] == before.chains@[d],
                    disk.state() == d0.wrote_all(base + dirty_items(li.take(i as int))),
                decreases bi.len() - i,
            {
                proof {
                    assert(li.take(i + 1).drop_last() =~= li.take(i as int));
                    assert(self.chains@[c as int].items@[i as int].id == bi[i as int].id);
                }
                let ghost sofar = base + dirty_items(li.take(i as int));
                if self.chains[c].items[i].modified {
                    let slot = &self.chains[c].items[i];
                    let _r = disk.write_block(slot.id, slot.payload.as_slice());
                    self.chains[c].items[i].modified = false;
                    proof {
                        let pair = (bi[i as int].id, bi[i as int].payload@);
                        let next = base + dirty_items(li.take(i + 1));
                        assert(next =~= sofar.push(pair));
                        assert(sofar.push(pair).drop_last() =~= sofar);
                    }
                }
                i += 1;
            }
            proof {
                assert(li.take(i as int) =~= li);
                assert(v.take(c + 1).drop_last() =~= v.take(c as int));
            }
            c += 1;
        }
        proof {
            assert(v.take(c as int) =~= v);
            self.lemma_flags_cleared(&before);
        }
    }

    proof fn lemma_flags_cleared(&self, before: &BlockCache)
        requires
            before.wf(),
            self.width == before.width,
            self.chains@.len() == before.chains@.len(),
            forall|d: int|
                0 <= d < before.chains@.len() ==> flags_cleared(
                    before.chains@[d].items@,
                    (#[trigger] self.chains@[d]).items@,
                    before.chains@[d].items@.len() as int,
                ) && self.chains@[d].lk == before.chains@[d].lk,
        ensures
            self.wf(),
            self.slots() == before.slots_clean(),
            self@ == written_back(before@),
    {
        assert forall|d: int| 0 <= d < self.width implies distinct_ids((#[trigger] self.chains@[d]).items@) && !self.chains@[d].lk.v by {
            let a = self.chains@[d].items@;
            let b = before.chains@[d].items@;
            assert(distinct_ids(b));
            assert forall|i: int, j: int| 0 <= i < j < a.len() implies (#[trigger] a[i]).id != (#[trigger] a[j]).id by {
                assert(b[i].id != b[j].id);
            }
        }
        assert forall|d: int, i: int| 0 <= d < self.width && 0 <= i < self.chains@[d].items@.len() implies chain_of(
            (#[trigger] self.chains@[d].items@[i]).id,
            self.width,
        ) == d by {
            assert(self.chains@[d].items@[i].id == before.chains@[d].items@[i].id);
        }
        assert forall|k: u64| #[trigger] self.slots().dom().contains(k) <==> before.slots().dom().contains(k) by {
            let d = chain_of(k, self.width);
            let a = self.chains@[d].items@;
            let b = before.chains@[d].items@;
            if self.slots().dom().contains(k) {
                let i = choose|i: int| holds(self.items_for(k), k, i);
                assert(a[i].id == b[i].id);
                assert(holds(before.items_for(k), k, i));
            }
            if before.slots().dom().contains(k) {
                let i = choose|i: int| holds(before.items_for(k), k, i);
                assert(a[i].id == b[i].id);
                assert(holds(self.items_for(k), k, i));
            }
        }
        assert forall|k: u64| self.slots().dom().contains(k) implies #[trigger] self.slots()[k] == before.slots_clean()[k] by {
            let d = chain_of(k, self.width);
            let i = choose|i: int| holds(self.items_for(k), k, i);
            self.lemma_slot(d, i);
            assert(self.chains@[d].items@[i].id == before.chains@[d].items@[i].id);
            before.lemma_slot(d, i);
        }
        assert(self.slots() =~= before.slots_clean());
        assert forall|d: int| 0 <= d < self.width implies self@[d] == written_back(before@)[d] by {
            let a = self.chains@[d].items@;
            let b = before.chains@[d].items@;
            assert forall|i: int| 0 <= i < a.len() implies #[trigger] lines(a)[i] == (b[i].id, b[i].payload@, false) by {
                assert(a[i].id == b[i].id);
            }
            assert(lines(a) =~= written_back(before@)[d]);
        }
        assert(self@ =~= written_back(before@));
    }

    /// Drops block `k` from the cache.
    pub fn invalidate(&mut self, k: u64)
        requires
            old(self).wf(),
        ensures
            final(self).wf(),
            final(self).width == old(self).width,
            final(self).slots() == old(self).slots().remove(k),
            final(self)@ == dropped(old(self)@, k),
    {
        let c = self.chain_index(k);
        if let Some(i) = self.find_slot(c, k) {
            let ghost before = *self;
            let _gone = self.chains[c].items.remove(i);
            proof {
                let bi = before.chains@[c as int].items@;
                let ai = self.chains@[c as int].items@;
                assert(ai =~= bi.remove(i as int));
                assert forall|x: int, y: int| 0 <= x < y < ai.len() implies (#[trigger] ai[x]).id != (#[trigger] ai[y]).id by {
                    let x1 = if x < i { x } else { x + 1 };
                    let y1 = if y < i { y } else { y + 1 };
                    assert(bi[x1].id != bi[y1].id);
                }
                assert forall|x: int| 0 <= x < ai.len() implies chain_of((#[trigger] ai[x]).id, self.width) == c by {
                    let x1 = if x < i { x } else { x + 1 };
                    assert(chain_of(bi[x1].id, before.width) == c);
                }
                self.lemma_chain_replaced(&before, c as int);
                assert forall|q: u64| chain_of(q, before.width) == c implies (#[trigger] self.slots().dom().contains(q) <==> (q != k
                    && before.slots().dom().contains(q))) && (self.slots().dom().contains(q) ==> self.slots()[q]
                    == before.slots()[q]) by {
                    if q != k && before.slots().dom().contains(q) {
                        let x = choose|x: int| holds(before.items_for(q), q, x);
                        before.lemma_slot(c as int, x);
                        let x0 = if x < i { x } else { x - 1 };
                        assert(ai[x0] == bi[x]);
                        self.lemma_slot(c as int, x0);
                    }
                    if self.slots().dom().contains(q) {
                        let x = choose|x: int| holds(self.items_for(q), q, x);
                        let x1 = if x < i { x } else { x + 1 };
                        assert(bi[x1] == ai[x]);
                        assert(holds(before.items_for(q), q, x1));
                        if q == k {
                            if x1 < i {
                                assert(bi[x1].id != bi[i as int].id);
                            } else {
                                assert(bi[i as int].id != bi[x1].id);
                            }
                        }
                    }
                }
                assert(self.slots() =~= before.slots().remove(k));
                lemma_dropped(bi, k, i as int);
                assert(lines(ai) =~= lines(bi).remove(i as int));
                assert(self@ =~= dropped(before@, k));
            }
        } else {
            proof {
                assert(self.slots().remove(k) =~= self.slots());
                let items = self.chains@[c as int].items@;
                assert forall|x: int| 0 <= x < items.len() implies (#[trigger] items[x]).id != k by {
                    if items[x].id == k {
                        assert(holds(self.items_for(k), k, x));
                    }
                }
                lemma_none_dropped(items, k);
                assert(self@ =~= dropped(self@, k));
            }
        }
    }

    /// Number of cached blocks.
    pub fn total_entries(&self) -> (n: usize)
        requires
            entries_in(self@) <= usize::MAX,
        ensures
            n == entries_in(self@),
            self.wf() ==> n == self.slots().dom().len(),
    {
        let ghost v = self@;
        let mut total: usize = 0;
        let mut i: usize = 0;
        assert(v.take(0) =~= Seq::<Seq<Line>>::empty());
        while i < self.chains.len()
            invariant
                v == self@,
                i <= self.chains@.len(),
                entries_in(v) <= usize::MAX,
                total == entries_in(v.take(i as int)),
            decreases self.chains@.len() - i,
        {
            proof {
                assert(v.take(i + 1).drop_last() =~= v.take(i as int));
                lemma_entries_prefix(v, i + 1);
                assert(v[i as int].len() == self.chains@[i as int].items@.len());
            }
            total += self.chains[i].items.len();
            i += 1;
        }
        proof {
            assert(v.take(i as int) =~= v);
            if self.wf() {
                law_entries_are_blocks(*self);
            }
        }
        total
    }

    /// Number of modified blocks.
    pub fn dirty_count(&self) -> (n: usize)
        requires
            entries_in(self@) <= usize::MAX,
        ensures
            n == dirty_chains(self@).len(),
            self.wf() ==> n == modified_keys(self.slots()).len(),
    {
        let ghost v = self@;
        let mut n: usize = 0;
        let mut c: usize = 0;
        assert(v.take(0) =~= Seq::<Seq<Line>>::empty());
        while c < self.chains.len()
            invariant
                v == self@,
                c <= self.chains@.len(),
                entries_in(v) <= usize::MAX,
                n == dirty_chains(v.take(c as int)).len(),
                n <= entries_in(v.take(c as int)),
            decreases self.chains@.len() - c,
        {
            let items = &self.chains[c].items;
            let ghost li = lines(items@);
            let ghost base = n as int;
            let mut i: usize = 0;
            assert(li.take(0) =~= Seq::<Line>::empty());
            proof {
                assert(v.take(c + 1).drop_last() =~= v.take(c as int));
                lemma_entries_prefix(v, c + 1);
                assert(v[c as int] == li);
            }
            while i < items.len()
                invariant
                    li == lines(items@),
                    i <= items@.len(),
                    base + items@.len() <= usize::MAX,
                    n == base + dirty_items(li.take(i as int)).len(),
                    n <= base + i,
                decreases items@.len() - i,
            {
                assert(li.take(i + 1).drop_last() =~= li.take(i as int));
                assert(li[i as int] == items@[i as int]@);
                if items[i].modified {
                    n += 1;
                }
                i += 1;
            }
            assert(li.take(i as int) =~= li);
            c += 1;
        }
        proof {
            assert(v.take(c as int) =~= v);
            if self.wf() {
                law_dirty_are_modified(*self);
            }
        }
        n
    }

    /// Evicts the cold blocks: those that are modified and older than `max_age`. Returns their
    /// number.
    pub fn evict_cold(&mut self, max_age: u64, now: u64) -> (n: usize)
        requires
            old(self).wf(),
            entries_in(old(self)@) <= usize::MAX,
        ensures
            final(self).wf(),
            final(self).width == old(self).width,
            forall|c: int|
                0 <= c < old(self).width ==> (#[trigger] final(self).chains@[c]).items@ == old(self).chains@[c].items@.filter(
                    stays(now, max_age),
                ),
            n == entries_in(old(self)@) - entries_in(final(self)@),
            forall|k: u64|
                #[trigger] final(self).slots().dom().contains(k) <==> old(self).slots().dom().contains(k) && (
                !old(self).slots()[k].1 || slot_age(now, k) <= max_age),
            forall|k: u64| final(self).slots().dom().contains(k) ==> #[trigger] final(self).slots()[k] == old(self).slots()[k],
    {
        let ghost before = *self;
        let ghost p = stays(now, max_age);
        let mut n: usize = 0;
        let mut c: usize = 0;
        assert(before@.take(0) =~= Seq::<Seq<Line>>::empty());
        assert(self@.take(0) =~= Seq::<Seq<Line>>::empty());
        while c < self.chains.len()
            invariant
                before.wf(),
                entries_in(before@) <= usize::MAX,
                self.width == before.width,
                self.chains@.len() == before.chains@.len(),
                c <= before.chains@.len(),
                p == stays(now, max_age),
                forall|d: int|
                    0 <= d < c ==> (#[trigger] self.chains@[d]).items@ == before.chains@[d].items@.filter(p) && self.chains@[d].lk
                        == before.chains@[d].lk,
                forall|d: int| c <= d < before.chains@.len() ==> self.chains@[d] == before.chains@[d],
                n == entries_in(before@.take(c as int)) - entries_in(self@.take(c as int)),
            decreases before.chains@.len() - c,
        {
            let ghost bi = before.chains@[c as int].items@;
            let ghost start = *self;
            let mut i: usize = 0;
            let ghost mut seen: int = 0;
            proof {
                crate::seqs::lemma_filter_ends(bi, p);
                assert(bi.skip(0) =~= bi);
                assert(bi.take(0).filter(p) + bi.skip(0) =~= bi);
                assert(before@.take(c + 1).drop_last() =~= before@.take(c as int));
                lemma_entries_prefix(before@, c + 1);
                assert(before@[c as int].len() == bi.len());
            }
            let had = self.chains[c].items.len();
            while i < self.chains[c].items.len()
                invariant
                    0 <= seen <= bi.len(),
                    p == stays(now, max_age),
                    bi == before.chains@[c as int].items@,
                    c < self.chains@.len(),
                    self.width == start.width,
                    self.chains@.len() == start.chains@.len(),
                    forall|d: int| 0 <= d < self.chains@.len() && d != c ==> self.chains@[d] == start.chains@[d],
                    self.chains@[c as int].lk == start.chains@[c as int].lk,
                    i == bi.take(seen).filter(p).len(),
                    self.chains@[c as int].items@ == bi.take(seen).filter(p) + bi.skip(seen),
                decreases bi.len() - seen,
            {
                let ghost f = bi.take(seen).filter(p);
                proof {
                    crate::seqs::lemma_filter_step(bi, seen, p);
                    assert(self.chains@[c as int].items@[i as int] == bi[seen]);
                }
                let slot = &self.chains[c].items[i];
                let age: u64 = now.wrapping_sub(slot.id.wrapping_mul(3));
                if !slot.modified || age <= max_age {
                    i += 1;
                    assert(f + bi.skip(seen) =~= f.push(bi[seen]) + bi.skip(seen + 1));
                } else {
                    let _gone = self.chains[c].items.remove(i);
                    assert((f + bi.skip(seen)).remove(i as int) =~= f + bi.skip(seen + 1));
                }
                proof {
                    seen = seen + 1;
                }
            }
            proof {
                crate::seqs::lemma_filter_ends(bi, p);
                assert(bi.skip(seen) =~= Seq::<CacheSlot>::empty()) by {
                    assert(self.chains@[c as int].items@.len() == i);
                }
                assert(seen == bi.len());
                assert(self.chains@[c as int].items@ =~= bi.filter(p));
                assert(self@.take(c as int) =~= start@.take(c as int));
                assert(self@.take(c + 1).drop_last() =~= self@.take(c as int));
                assert(self@[c as int].len() == self.chains@[c as int].items@.len());
                assert forall|d: int| 0 <= d < c + 1 implies (#[trigger] self.chains@[d]).items@ == before.chains@[d].items@.filter(p)
                    && self.chains@[d].lk == before.chains@[d].lk by {
                    if d < c {
                        assert(self.chains@[d] == start.chains@[d]);
                    } else {
                        assert(start.chains@[c as int] == before.chains@[c as int]);
                    }
                }
            }
            let left = self.chains[c].items.len();
            n += had - left;
            c += 1;
        }
        proof {
            assert(before@.take(c as int) =~= before@);
            assert(self@.take(c as int) =~= self@);
            self.lemma_chains_filtered(&before, now, max_age);
        }
        n
    }

    proof fn lemma_chains_filtered(&self, before: &BlockCache, now: u64, max_age: u64)
        requires
            before.wf(),
            self.width == before.width,
            self.chains@.len() == before.chains@.len(),
            forall|d: int|
                0 <= d < before.chains@.len() ==> (#[trigger] self.chains@[d]).items@ == before.chains@[d].items@.filter(
                    stays(now, max_age),
                ) && self.chains@[d].lk == before.chains@[d].lk,
        ensures
            self.wf(),
            forall|k: u64|
                #[trigger] self.slots().dom().contains(k) <==> before.slots().dom().contains(k) && (!before.slots()[k].1 || slot_age(
                    now,
                    k,
                ) <= max_age),
            forall|k: u64| self.slots().dom().contains(k) ==> #[trigger] self.slots()[k] == before.slots()[k],
    {
        let p = stays(now, max_age);
        assert forall|d: int| 0 <= d < self.width implies distinct_ids((#[trigger] self.chains@[d]).items@) && !self.chains@[d].lk.v by {
            lemma_filter_distinct(before.chains@[d].items@, p);
        }
        assert forall|d: int, i: int| 0 <= d < self.width && 0 <= i < self.chains@[d].items@.len() implies chain_of(
            (#[trigger] self.chains@[d].items@[i]).id,
            self.width,
        ) == d by {
            let b = before.chains@[d].items@;
            crate::seqs::lemma_filter_contains(b, p);
            let s = self.chains@[d].items@[i];
            assert(b.filter(p).contains(s));
            let j = choose|j: int| 0 <= j < b.len() && b[j] == s;
            assert(chain_of(b[j].id, before.width) == d);
        }
        assert forall|k: u64|
            (#[trigger] self.slots().dom().contains(k) <==> before.slots().dom().contains(k) && (!before.slots()[k].1 || slot_age(now, k)
                <= max_age)) && (self.slots().dom().contains(k) ==> self.slots()[k] == before.slots()[k]) by {
            let d = chain_of(k, self.width);
            let b = before.chains@[d].items@;
            let a = self.chains@[d].items@;
            crate::seqs::lemma_filter_contains(b, p);
            if self.slots().dom().contains(k) {
                let i = choose|i: int| holds(self.items_for(k), k, i);
                self.lemma_slot(d, i);
                assert(b.filter(p).contains(a[i]));
                let j = choose|j: int| 0 <= j < b.len() && b[j] == a[i];
                before.lemma_slot(d, j);
            }
            if before.slots().dom().contains(k) && (!before.slots()[k].1 || slot_age(now, k) <= max_age) {
                let j = choose|j: int| holds(before.items_for(k), k, j);
                before.lemma_slot(d, j);
                assert(b.contains(b[j]));
                assert(b.filter(p).contains(b[j]));
                let i = choose|i: int| 0 <= i < a.len() && a[i] == b[j];
                assert(holds(self.items_for(k), k, i));
            }
        }
    }
}

proof fn lemma_filter_distinct(s: Seq<CacheSlot>, p: spec_fn(CacheSlot) -> bool)
    requires
        distinct_ids(s),
    ensures
        distinct_ids(s.filter(p)),
    decreases s.len(),
{
    reveal(Seq::filter);
    if s.len() > 0 {
        let t = s.drop_last();
        lemma_filter_distinct(t, p);
        crate::seqs::lemma_filter_contains(t, p);
        let f = t.filter(p);
        let g = s.filter(p);
        assert forall|i: int, j: int| 0 <= i < j < g.len() implies (#[trigger] g[i]).id != (#[trigger] g[j]).id by {
            if j < f.len() {
                assert(f[i].id != f[j].id);
            } else {
                assert(f.contains(f[i]));
                let x = choose|x: int| 0 <= x < t.len() && t[x] == f[i];
                assert(s[x].id != s[s.len() - 1].id);
            }
        }
    }
}

proof fn lemma_entries_prefix(chains: Seq<Seq<Line>>, n: int)
    requires
        0 <= n <= chains.len(),
    ensures
        entries_in(chains.take(n)) <= entries_in(chains),
    decreases chains.len(),
{
    if n == chains.len() {
        assert(chains.take(n) =~= chains);
    } else {
        lemma_entries_prefix(chains.drop_last(), n);
        assert(chains.drop_last().take(n) =~= chains.take(n));
    }
}

/// What block `k` holds as seen through the cache.
pub open spec fn block_of(slots: Map<u64, (Seq<u8>, bool)>, disk: Disk, k: u64) -> Seq<u8> {
    if slots.dom().contains(k) {
        slots[k].0
    } else {
        disk.content(k)
    }
}

/// Cached blocks that are not modified agree with the disk.
pub open spec fn coherent(slots: Map<u64, (Seq<u8>, bool)>, disk: Disk) -> bool {
    forall|k: u64| slots.dom().contains(k) && !slots[k].1 ==> (#[trigger] slots[k]).0 == disk.content(k)
}

/// Fetching a block changes no block and keeps the cache coherent with the disk.
pub proof fn law_fetch_changes_nothing(slots: Map<u64, (Seq<u8>, bool)>, disk: Disk, k: u64)
    requires
        !slots.dom().contains(k),
    ensures
        forall|b: u64|
            #[trigger] block_of(slots.insert(k, (disk.content(k), false)), disk.after_read(), b) == block_of(slots, disk, b),
        coherent(slots, disk) ==> coherent(slots.insert(k, (disk.content(k), false)), disk.after_read()),
{
    assert(disk.after_read().state().store == disk.state().store);
    assert forall|b: u64| #[trigger] disk.after_read().content(b) == disk.content(b) by {}
}

/// A block put into the cache is what a later fetch of it yields; all other blocks stay.
pub proof fn law_fetch_after_put(slots: Map<u64, (Seq<u8>, bool)>, disk: Disk, k: u64, data: Seq<u8>)
    ensures
        block_of(slots.insert(k, (data, true)), disk, k) == data,
        forall|b: u64| b != k ==> #[trigger] block_of(slots.insert(k, (data, true)), disk, b) == block_of(slots, disk, b),
        coherent(slots, disk) ==> coherent(slots.insert(k, (data, true)), disk),
{
}

spec fn distinct_lines(items: Seq<Line>) -> bool {
    forall|i: int, j: int| 0 <= i < j < items.len() ==> (#[trigger] items[i]).0 != (#[trigger] items[j]).0
}

spec fn is_dirty_at(items: Seq<Line>, i: int, pair: (u64, Seq<u8>)) -> bool {
    0 <= i < items.len() && items[i].2 && pair == (items[i].0, items[i].1)
}

spec fn is_dirty(items: Seq<Line>, pair: (u64, Seq<u8>)) -> bool {
    exists|i: int| is_dirty_at(items, i, pair)
}

proof fn lemma_dirty_items(items: Seq<Line>)
    ensures
        forall|i: int|
            0 <= i < items.len() && (#[trigger] items[i]).2 ==> dirty_items(items).contains((items[i].0, items[i].1)),
        forall|j: int| 0 <= j < dirty_items(items).len() ==> is_dirty(items, #[trigger] dirty_items(items)[j]),
        distinct_lines(items) ==> forall|i: int, j: int|
            0 <= i < j < dirty_items(items).len() ==> (#[trigger] dirty_items(items)[i]).0 != (#[trigger] dirty_items(items)[j]).0,
    decreases items.len(),
{
    if items.len() > 0 {
        let t = items.drop_last();
        lemma_dirty_items(t);
        let d = dirty_items(t);
        let e = dirty_items(items);
        assert forall|i: int| 0 <= i < items.len() && (#[trigger] items[i]).2 implies e.contains((items[i].0, items[i].1)) by {
            if i < t.len() {
                assert(t[i].2);
                let x = choose|x: int| 0 <= x < d.len() && d[x] == (items[i].0, items[i].1);
                assert(e[x] == d[x]);
            } else {
                assert(e[e.len() - 1] == (items[i].0, items[i].1));
            }
        }
        assert forall|j: int| 0 <= j < e.len() implies is_dirty(items, #[trigger] e[j]) by {
            if j < d.len() {
                assert(is_dirty(t, d[j]));
                let i = choose|i: int| is_dirty_at(t, i, d[j]);
                assert(is_dirty_at(items, i, e[j]));
            } else {
                assert(is_dirty_at(items, items.len() - 1, e[j]));
            }
        }
        if distinct_lines(items) {
            assert(distinct_lines(t));
            assert forall|i: int, j: int| 0 <= i < j < e.len() implies (#[trigger] e[i]).0 != (#[trigger] e[j]).0 by {
                if j < d.len() {
                    assert(d[i].0 != d[j].0);
                } else {
                    assert(d[i] == e[i]);
                    assert(is_dirty(t, d[i]));
                    let x = choose|x: int| is_dirty_at(t, x, d[i]);
                    assert(items[x].0 != items[items.len() - 1].0);
                }
            }
        }
    }
}

proof fn lemma_dirty_chains(b: BlockCache, n: int)
    requires
        b.wf(),
        0 <= n <= b.width,
    ensures
        ({
            let e = dirty_chains(b@.take(n));
            &&& forall|k: u64|
                #[trigger] b.slots().dom().contains(k) && b.slots()[k].1 && chain_of(k, b.width) < n ==> e.contains((k, b.slots()[k].0))
            &&& forall|j: int|
                0 <= j < e.len() ==> b.slots().dom().contains((#[trigger] e[j]).0) && b.slots()[e[j].0] == (e[j].1, true) && chain_of(
                    e[j].0,
                    b.width,
                ) < n
            &&& forall|i: int, j: int| 0 <= i < j < e.len() ==> (#[trigger] e[i]).0 != (#[trigger] e[j]).0
        }),
    decreases n,
{
    if n == 0 {
        assert(b@.take(0) =~= Seq::<Seq<Line>>::empty());
    } else {
        lemma_dirty_chains(b, n - 1);
        assert(b@.take(n).drop_last() =~= b@.take(n - 1));
        let slots = b.chains@[n - 1].items@;
        let items = lines(slots);
        assert(b@[n - 1] == items);
        assert(distinct_lines(items)) by {
            assert forall|i: int, j: int| 0 <= i < j < items.len() implies (#[trigger] items[i]).0 != (#[trigger] items[j]).0 by {
                assert(slots[i].id != slots[j].id);
            }
        }
        lemma_dirty_items(items);
        let d = dirty_chains(b@.take(n - 1));
        let x = dirty_items(items);
        let e = dirty_chains(b@.take(n));
        assert(e == d + x);
        assert forall|k: u64| #[trigger] b.slots().dom().contains(k) && b.slots()[k].1 && chain_of(k, b.width) < n implies e.contains(
            (k, b.slots()[k].0),
        ) by {
            if chain_of(k, b.width) < n - 1 {
                let w = choose|w: int| 0 <= w < d.len() && d[w] == (k, b.slots()[k].0);
                assert(e[w] == d[w]);
            } else {
                let i = choose|i: int| holds(b.items_for(k), k, i);
                b.lemma_slot(n - 1, i);
                assert(items[i].2);
                let w = choose|w: int| 0 <= w < x.len() && x[w] == (items[i].0, items[i].1);
                assert(e[d.len() + w] == x[w]);
            }
        }
        assert forall|j: int| 0 <= j < e.len() implies b.slots().dom().contains((#[trigger] e[j]).0) && b.slots()[e[j].0] == (e[j].1, true)
            && chain_of(e[j].0, b.width) < n && (j >= d.len() ==> chain_of(e[j].0, b.width) == n - 1) by {
            if j < d.len() {
                assert(e[j] == d[j]);
            } else {
                assert(e[j] == x[j - d.len()]);
                let pair = x[j - d.len()];
                assert(is_dirty(items, pair));
                let i = choose|i: int| is_dirty_at(items, i, pair);
                b.lemma_slot(n - 1, i);
            }
        }
        assert forall|i: int, j: int| 0 <= i < j < e.len() implies (#[trigger] e[i]).0 != (#[trigger] e[j]).0 by {
            if j < d.len() {
                assert(d[i].0 != d[j].0);
            } else if i >= d.len() {
                assert(x[i - d.len()].0 != x[j - d.len()].0);
            } else {
                assert(e[i] == d[i]);
                assert(chain_of(d[i].0, b.width) < n - 1);
            }
        }
    }
}

/// The blocks that are modified.
pub open spec fn modified_keys(slots: Map<u64, (Seq<u8>, bool)>) -> Set<u64> {
    slots.dom().filter(|k: u64| slots[k].1)
}

/// Numbers of the blocks of all chains, chain after chain.
spec fn numbers(chains: Seq<Seq<Line>>) -> Seq<u64>
    decreases chains.len(),
{
    if chains.len() == 0 {
        Seq::empty()
    } else {
        numbers(chains.drop_last()) + chains.last().map_values(|l: Line| l.0)
    }
}

proof fn lemma_numbers(b: BlockCache, n: int)
    requires
        b.wf(),
        0 <= n <= b.width,
    ensures
        ({
            let e = numbers(b@.take(n));
            &&& e.len() == entries_in(b@.take(n))
            &&& e.no_duplicates()
            &&& forall|k: u64| #[trigger] e.contains(k) <==> b.slots().dom().contains(k) && chain_of(k, b.width) < n
        }),
    decreases n,
{
    if n == 0 {
        assert(b@.take(0) =~= Seq::<Seq<Line>>::empty());
    } else {
        lemma_numbers(b, n - 1);
        assert(b@.take(n).drop_last() =~= b@.take(n - 1));
        let items = b.chains@[n - 1].items@;
        let d = numbers(b@.take(n - 1));
        let x = b@[n - 1].map_values(|l: Line| l.0);
        let e = numbers(b@.take(n));
        assert(e == d + x);
        assert forall|i: int| 0 <= i < x.len() implies #[trigger] x[i] == items[i].id && b.slots().dom().contains(x[i]) && chain_of(
            x[i],
            b.width,
        ) == n - 1 by {
            b.lemma_slot(n - 1, i);
        }
        assert forall|i: int, j: int| 0 <= i < j < e.len() implies e[i] != e[j] by {
            if j < d.len() {
                assert(d[i] != d[j]);
            } else if i >= d.len() {
                assert(x[i - d.len()] == items[i - d.len()].id);
                assert(x[j - d.len()] == items[j - d.len()].id);
                assert(items[i - d.len()].id != items[j - d.len()].id);
            } else {
                assert(d.contains(d[i]));
                assert(x[j - d.len()] == items[j - d.len()].id);
            }
        }
        assert forall|k: u64| #[trigger] e.contains(k) <==> b.slots().dom().contains(k) && chain_of(k, b.width) < n by {
            if e.contains(k) {
                let i = choose|i: int| 0 <= i < e.len() && e[i] == k;
                if i < d.len() {
                    assert(d.contains(d[i]));
                } else {
                    assert(x[i - d.len()] == items[i - d.len()].id);
                }
            }
            if b.slots().dom().contains(k) && chain_of(k, b.width) < n {
                if chain_of(k, b.width) < n - 1 {
                    assert(d.contains(k));
                    let i = choose|i: int| 0 <= i < d.len() && d[i] == k;
                    assert(e[i] == k);
                } else {
                    let i = choose|i: int| holds(b.items_for(k), k, i);
                    assert(x[i] == items[i].id);
                    assert(e[d.len() + i] == k);
                }
            }
        }
    }
}

/// The chains have one entry for each cached block.
pub proof fn law_entries_are_blocks(b: BlockCache)
    requires
        b.wf(),
    ensures
        b.slots().dom().finite(),
        entries_in(b@) == b.slots().dom().len(),
{
    assert(b@.take(b.width as int) =~= b@);
    lemma_numbers(b, b.width as int);
    let e = numbers(b@);
    assert forall|k: u64| e.to_set().contains(k) <==> b.slots().dom().contains(k) by {
        assert(e.contains(k) <==> b.slots().dom().contains(k));
    }
    assert(e.to_set() =~= b.slots().dom());
    e.unique_seq_to_set();
}

/// What would be written back is one entry for each modified block.
pub proof fn law_dirty_are_modified(b: BlockCache)
    requires
        b.wf(),
    ensures
        modified_keys(b.slots()).finite(),
        dirty_chains(b@).len() == modified_keys(b.slots()).len(),
        forall|k: u64| #[trigger] modified_keys(b.slots()).contains(k) ==> dirty_chains(b@).contains((k, b.slots()[k].0)),
{
    assert(b@.take(b.width as int) =~= b@);
    lemma_dirty_chains(b, b.width as int);
    let d = dirty_chains(b@);
    let e = d.map_values(|x: (u64, Seq<u8>)| x.0);
    assert forall|i: int, j: int| 0 <= i < j < e.len() implies e[i] != e[j] by {
        assert(d[i].0 != d[j].0);
    }
    assert forall|k: u64| e.to_set().contains(k) <==> modified_keys(b.slots()).contains(k) by {
        if e.contains(k) {
            let i = choose|i: int| 0 <= i < e.len() && e[i] == k;
            assert(b.slots()[d[i].0] == (d[i].1, true));
        }
        if modified_keys(b.slots()).contains(k) {
            assert(d.contains((k, b.slots()[k].0)));
            let i = choose|i: int| 0 <= i < d.len() && d[i] == (k, b.slots()[k].0);
            assert(e[i] == k);
        }
    }
    assert(e.to_set() =~= modified_keys(b.slots()));
    e.unique_seq_to_set();
}

/// Syncing to a sound disk makes every block durable: afterwards the disk alone holds what was
/// seen through the cache before, and nothing that is seen has changed.
pub proof fn law_sync_persists(b: BlockCache, before: Disk, after: Disk)
    requires
        b.wf(),
        before.errs == 0,
        coherent(b.slots(), before),
        forall|k: u64| b.slots().dom().contains(k) ==> (#[trigger] b.slots()[k]).0.len() == crate::io::DISK_BLOCK,
        after.state() == before.state().wrote_all(dirty_chains(b@)),
    ensures
        forall|k: u64| #[trigger] after.content(k) == block_of(b.slots(), before, k),
        forall|k: u64| #[trigger] block_of(b.slots_clean(), after, k) == block_of(b.slots(), before, k),
        coherent(b.slots_clean(), after),
{
    let list = dirty_chains(b@);
    assert(b@.take(b.width as int) =~= b@);
    lemma_dirty_chains(b, b.width as int);
    assert forall|i: int| 0 <= i < list.len() implies (#[trigger] list[i]).1.len() == crate::io::DISK_BLOCK by {
        assert(b.slots()[list[i].0] == (list[i].1, true));
    }
    crate::io::law_batch_persists(before.state(), list);
    assert forall|k: u64| #[trigger] after.content(k) == block_of(b.slots(), before, k) by {
        if b.slots().dom().contains(k) && b.slots()[k].1 {
            let w = choose|w: int| 0 <= w < list.len() && list[w] == (k, b.slots()[k].0);
            assert(list[w].0 == k);
        } else {
            assert forall|i: int| 0 <= i < list.len() implies (#[trigger] list[i]).0 != k by {
                assert(b.slots()[list[i].0] == (list[i].1, true));
            }
            assert(before.state().wrote_all(list).content(k) == before.state().content(k));
            if b.slots().dom().contains(k) {
                assert(b.slots()[k].0 == before.content(k));
            }
        }
    }
}

/// The page that makes room is the least recently used one that is not pinned: every page that was
/// used longer ago is pinned. All other pages stay as they are.
pub proof fn law_least_recently_used_goes(c: PageCache, other: u64)
    requires
        c.wf(),
        c.victim() is Some,
    ensures
        ({
            let id = c.victim()->0;
            &&& c.entries@.dom().contains(id) && c.entries@[id].pin_count == 0
            &&& exists|i: int|
                0 <= i < c.lru_order@.len() && #[trigger] c.lru_order@[i] == id && forall|j: int|
                    0 <= j < i ==> c.entries@[#[trigger] c.lru_order@[j]].pin_count > 0
            &&& !c.after_evict().0.dom().contains(id)
            &&& other != id ==> (c.after_evict().0.dom().contains(other) <==> c.entries@.dom().contains(other))
                && c.after_evict().0[other] == c.entries@[other]
        }),
{
    let s = c.lru_order@;
    let p = unpinned(c.entries@);
    let id = c.victim()->0;
    crate::seqs::lemma_filter_contains(s, p);
    assert(s.filter(p).contains(s.filter(p)[0]));
    assert(s.contains(id) && p(id));
    assert(s.take(s.len() as int) =~= s);
    lemma_filter_first(s, p, s.len() as int);
}

/// The first of what is kept stands behind nothing but what is not kept.
proof fn lemma_filter_first(s: Seq<u64>, p: spec_fn(u64) -> bool, n: int)
    requires
        0 <= n <= s.len(),
        s.take(n).filter(p).len() > 0,
    ensures
        exists|i: int|
            0 <= i < n && #[trigger] s[i] == s.take(n).filter(p)[0] && p(s[i]) && forall|j: int| 0 <= j < i ==> !p(#[trigger] s[j]),
    decreases n,
{
    if n == 0 {
        crate::seqs::lemma_filter_ends(s, p);
    } else {
        crate::seqs::lemma_filter_step(s, n - 1, p);
        let before = s.take(n - 1).filter(p);
        if before.len() > 0 {
            lemma_filter_first(s, p, n - 1);
            let i = choose|i: int|
                0 <= i < n - 1 && #[trigger] s[i] == before[0] && p(s[i]) && forall|j: int| 0 <= j < i ==> !p(#[trigger] s[j]);
            assert(s[i] == s.take(n).filter(p)[0]);
        } else {
            crate::seqs::lemma_filter_contains(s.take(n - 1), p);
            assert forall|j: int| 0 <= j < n - 1 implies !p(#[trigger] s[j]) by {
                assert(s.take(n - 1)[j] == s[j]);
                if p(s[j]) {
                    assert(s.take(n - 1).contains(s[j]));
                    assert(before.contains(s[j]));
                }
            }
            assert(p(s[n - 1]));
            assert(s[n - 1] == s.take(n).filter(p)[0]);
        }
    }
}

/// Pages that were written back are no longer modified and hold what they held; pages outside the
/// range do not change.
pub proof fn law_written_pages_are_clean(entries: Map<u64, PageCacheEntry>, start: int, end: int, id: u64)
    requires
        entries.dom().contains(id),
    ensures
        cleaned(entries, start, end).dom() == entries.dom(),
        start <= id < end ==> !cleaned(entries, start, end)[id].dirty,
        cleaned(entries, start, end)[id].data == entries[id].data,
        !(start <= id < end) ==> cleaned(entries, start, end)[id] == entries[id],
{
    assert(cleaned(entries, start, end).dom() =~= entries.dom());
}

/// After all modified blocks were written none is modified, and every block holds what it held.
pub proof fn law_synced_is_clean(b: BlockCache, k: u64)
    requires
        b.slots().dom().contains(k),
    ensures
        b.slots_clean().dom().contains(k),
        !b.slots_clean()[k].1,
        b.slots_clean()[k].0 == b.slots()[k].0,
        dirty_chains(written_back(b@)).len() == 0,
{
    lemma_none_dirty(b@);
}

proof fn lemma_none_dirty(chains: Seq<Seq<Line>>)
    ensures
        dirty_chains(written_back(chains)).len() == 0,
    decreases chains.len(),
{
    let w = written_back(chains);
    if chains.len() > 0 {
        lemma_none_dirty(chains.drop_last());
        assert(w.drop_last() =~= written_back(chains.drop_last()));
        lemma_no_dirty_line(w.last());
    }
}

proof fn lemma_no_dirty_line(items: Seq<Line>)
    requires
        forall|i: int| 0 <= i < items.len() ==> !(#[trigger] items[i]).2,
    ensures
        dirty_items(items).len() == 0,
    decreases items.len(),
{
    if items.len() > 0 {
        lemma_no_dirty_line(items.drop_last());
    }
}

/// A block that was put into the cache is what is read afterwards, though the disk may be broken,
/// and it is marked to be written; other blocks are read as before. A block that is not in memory is
/// read from the disk, which can fail only if the disk stays broken.
pub proof fn law_put_then_fetch(slots: Map<u64, (Seq<u8>, bool)>, disk: Disk, k: u64, data: Seq<u8>, other: u64)
    requires
        other != k,
    ensures
        fetched(with_block(slots, k, data), disk, k) == Some(data),
        with_block(slots, k, data)[k].1,
        fetched(with_block(slots, k, data), disk, other) == fetched(slots, disk, other),
        !slots.dom().contains(k) && disk.errs != ERRS_FOREVER ==> fetched(slots, disk, k) == Some(disk.content(k)),
        !slots.dom().contains(k) && disk.errs == ERRS_FOREVER ==> fetched(slots, disk, k) is None,
        fetched(slots.remove(k), disk, k) is Some ==> fetched(slots.remove(k), disk, k) == Some(disk.content(k)),
{
}

/// A page that was put in is found with its contents, unmodified and not pinned; and a page that was
/// used is the last to make room, behind all others, which keep their order.
pub proof fn law_used_page_goes_last(entries: Map<u64, PageCacheEntry>, order: Seq<u64>, id: u64, data: Vec<u8>, now: u64, other: u64)
    requires
        other != id,
    ensures
        with_page(entries, id, data, now).dom().contains(id),
        with_page(entries, id, data, now)[id].data == data,
        !with_page(entries, id, data, now)[id].dirty && with_page(entries, id, data, now)[id].pin_count == 0,
        with_page(entries, id, data, now).dom().contains(other) == entries.dom().contains(other),
        with_page(entries, id, data, now)[other] == entries[other],
        used_last(order, id).last() == id,
        !used_last(order, id).drop_last().contains(id),
        used_last(order, id).contains(other) == order.contains(other),
{
    let left = crate::seqs::without(order, id);
    crate::seqs::lemma_filter_contains(order, crate::seqs::other_than(id));
    let u = used_last(order, id);
    assert(u.drop_last() =~= left);
    if order.contains(other) {
        assert(left.contains(other));
        let j = choose|j: int| 0 <= j < left.len() && left[j] == other;
        assert(u[j] == other);
    }
    if u.contains(other) {
        let j = choose|j: int| 0 <= j < u.len() && u[j] == other;
        assert(left[j] == other);
        assert(left.contains(other));
    }
}

/// Just the objects of an owner are theirs.
pub proof fn law_owners_have_their_objects(r: KObjRegistry, pid: u64, id: u64)
    requires
        r.wf(),
    ensures
        r.objects.key_seq().filter(owned_by(r.objects@, pid)).contains(id) <==> r.objects@.dom().contains(id)
            && r.objects@[id].owner_pid == pid,
{
    r.objects.lemma_key_seq();
    crate::seqs::lemma_filter_contains(r.objects.key_seq(), owned_by(r.objects@, pid));
}

/// What was written back once is not written back again.
pub proof fn law_written_once(entries: Map<u64, PageCacheEntry>, keys: Seq<u64>, start: int, end: int)
    requires
        forall|i: int| 0 <= i < keys.len() ==> entries.dom().contains(#[trigger] keys[i]),
    ensures
        keys.filter(dirty_within(cleaned(entries, start, end), start, end)).len() == 0,
{
    let p = dirty_within(cleaned(entries, start, end), start, end);
    assert forall|i: int| 0 <= i < keys.len() implies !p(#[trigger] keys[i]) by {}
    keys.lemma_all_neg_filter_empty(p);
}

/// A block that was dropped is in the cache no longer, and all others are.
pub proof fn law_dropped_is_gone(chains: Seq<Seq<Line>>, k: u64, c: int, l: Line)
    requires
        0 < chains.len() <= usize::MAX,
        0 <= c < chains.len(),
    ensures
        ({
            let here = chain_of(k, chains.len() as usize);
            &&& l.0 != k ==> (dropped(chains, k)[c].contains(l) <==> chains[c].contains(l))
            &&& l.0 == k && c == here ==> !dropped(chains, k)[c].contains(l)
            &&& c != here ==> dropped(chains, k)[c] == chains[c]
        }),
{
    let here = chain_of(k, chains.len() as usize);
    crate::seqs::lemma_filter_contains(chains[here], other_line(k));
}

/// The longer blocks may stay, the fewer are dropped, and those that need not be written stay.
pub proof fn law_longer_stays_drop_less(now: u64, a: u64, b: u64, s: CacheSlot)
    requires
        a <= b,
    ensures
        stays(now, a)(s) ==> stays(now, b)(s),
        !s.modified ==> stays(now, a)(s),
        stays(now, u64::MAX)(s),
{
}

/// The pages when one is held once more.
pub open spec fn pinned_once_more(entries: Map<u64, PageCacheEntry>, id: u64) -> Map<u64, PageCacheEntry> {
    if entries.dom().contains(id) {
        entries.insert(id, PageCacheEntry { pin_count: (entries[id].pin_count + 1) as u64, ..entries[id] })
    } else {
        entries
    }
}

/// The pages when one is held once less.
pub open spec fn pinned_once_less(entries: Map<u64, PageCacheEntry>, id: u64) -> Map<u64, PageCacheEntry> {
    if entries.dom().contains(id) && entries[id].pin_count > 0 {
        entries.insert(id, PageCacheEntry { pin_count: (entries[id].pin_count - 1) as u64, ..entries[id] })
    } else {
        entries
    }
}

/// The pages when one is to be written back.
pub open spec fn dirtied(entries: Map<u64, PageCacheEntry>, id: u64) -> Map<u64, PageCacheEntry> {
    if entries.dom().contains(id) {
        entries.insert(id, PageCacheEntry { dirty: true, ..entries[id] })
    } else {
        entries
    }
}

/// A page that is pinned is held, and unpinning undoes that. A page that was changed is to be written
/// back and holds what it held. No other page is concerned.
pub proof fn law_pages_are_marked(entries: Map<u64, PageCacheEntry>, id: u64, other: u64)
    requires
        entries.dom().contains(id),
        entries[id].pin_count < u64::MAX,
    ensures
        pinned_once_more(entries, id)[id].pin_count > 0,
        pinned_once_less(pinned_once_more(entries, id), id) == entries,
        dirty_within(dirtied(entries, id), 0, u64::MAX + 1)(id),
        dirtied(entries, id)[id].data == entries[id].data,
        other != id ==> pinned_once_more(entries, id)[other] == entries[other] && pinned_once_less(entries, id)[other] == entries[other] && dirtied(
            entries,
            id,
        )[other] == entries[other],
        dirtied(entries, id).dom() == entries.dom(),
{
    assert(pinned_once_less(pinned_once_more(entries, id), id) =~= entries);
    assert(dirtied(entries, id).dom() =~= entries.dom());
}

/// The objects when one has one holder more.
pub open spec fn held_more(objects: Map<u64, KObjEntry>, id: u64) -> Map<u64, KObjEntry> {
    if objects.dom().contains(id) {
        objects.insert(id, KObjEntry { ref_count: (objects[id].ref_count + 1) as u64, ..objects[id] })
    } else {
        objects
    }
}

/// The objects when one has one holder less.
pub open spec fn held_less(objects: Map<u64, KObjEntry>, id: u64) -> Map<u64, KObjEntry> {
    if objects.dom().contains(id) && objects[id].ref_count > 0 {
        objects.insert(id, KObjEntry { ref_count: (objects[id].ref_count - 1) as u64, ..objects[id] })
    } else {
        objects
    }
}

/// Whether there was the object, and the objects without it.
pub open spec fn forgotten(objects: Map<u64, KObjEntry>, id: u64) -> (bool, Map<u64, KObjEntry>) {
    (objects.dom().contains(id), objects.remove(id))
}

/// The number of a new object, and the objects with it.
pub open spec fn made_known(
    objects: Map<u64, KObjEntry>,
    seq: u64,
    type_tag: u32,
    owner_pid: u64,
    parent_id: Option<u64>,
    now: u64,
) -> (u64, Map<u64, KObjEntry>) {
    (seq, objects.insert(seq, KObjEntry { obj_id: seq, type_tag, owner_pid, created_tick: now, ref_count: 1, parent_id }))
}

/// A new object belongs to who made it and lives through a sweep until its holder lets it go. One
/// holder more and one less leave an object as it was. What was forgotten is known no longer.
pub proof fn law_objects_live_while_held(
    objects: Map<u64, KObjEntry>,
    seq: u64,
    type_tag: u32,
    owner_pid: u64,
    parent_id: Option<u64>,
    now: u64,
    id: u64,
)
    requires
        objects.dom().contains(id) ==> objects[id].ref_count < u64::MAX,
    ensures
        ({
            let (n, o) = made_known(objects, seq, type_tag, owner_pid, parent_id, now);
            &&& o.dom().contains(n) && owned_by(o, owner_pid)(n) && o[n].parent_id == parent_id && o[n].type_tag == type_tag
            &&& referenced(o).dom().contains(n) && !unreferenced(o)(n)
            &&& !referenced(held_less(o, n)).dom().contains(n)
            &&& referenced(held_less(held_more(o, n), n)).dom().contains(n)
            &&& forgotten(o, n).0 && !forgotten(o, n).1.dom().contains(n)
        }),
        held_less(held_more(objects, id), id) == objects,
        !forgotten(forgotten(objects, id).1, id).0,
{
    assert(held_less(held_more(objects, id), id) =~= objects);
}

} // verus!
