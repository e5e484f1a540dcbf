use kernel::{
    check_access, check_access_rw, compute_rss_watermark, frame_alloc, frame_alloc_contig,
    frame_dealloc, heap_grow, heap_init, k_off, p2v, rdu_fixup, v2p, validate_access, AddrSpace,
    BuddyAllocator, CircBuf, FramePool, KStk, PgFrame, SharedPage, SlabEntry, VmMap, VmRegion,
    ZoneInfo, KERN_BASE, KHEAP_SZ, KSTK_SZ, MEM_OFF, PAGE_SZ, VM_EXEC, VM_READ, VM_SHARED, VM_WRITE,
};

#[test]
fn addresses_translate_both_ways() {
    assert_eq!(v2p(p2v(0x1234)), 0x1234);
    assert_eq!(p2v(v2p(0xffff_8000_0000_1000)), 0xffff_8000_0000_1000);
    assert_eq!(k_off(KERN_BASE + 5), 5);
}

#[test]
fn user_ranges_end_at_the_kernel() {
    assert!(check_access(0x1000, 16));
    assert!(check_access(KERN_BASE - 16, 16));
    assert!(!check_access(KERN_BASE - 15, 16));
    assert!(!check_access(KERN_BASE, 0));
    assert!(!check_access(0x1000, u64::MAX));
    assert!(check_access_rw(KERN_BASE, 0, true));
    assert!(!check_access_rw(KERN_BASE - 16, 16, false));
    assert!(check_access_rw(KERN_BASE - 17, 16, false));
}

#[test]
fn frame_references_count() {
    let mut f = PgFrame::with_rc(3, 1);
    assert_eq!(f.up(), 1);
    assert_eq!(f.count(), 2);
    assert_eq!(f.down(), 1);
    assert!(f.cas(1, 5));
    assert!(!f.cas(1, 6));
    assert_eq!(f.count(), 5);
    assert_eq!(f.phys_addr(), 3 * PAGE_SZ + MEM_OFF);
    assert!(!PgFrame::new(1).inc_if_nonzero());
}

#[test]
fn regions_split_and_merge() {
    let r = VmRegion::new(0x1000, 0x3000, VM_READ);
    assert_eq!(r.end(), 0x4000);
    assert!(r.contains(0x3fff));
    assert!(!r.contains(0x4000));
    let (a, b) = r.split_at(0x2000).unwrap();
    assert_eq!((a.base, a.len, b.base, b.len), (0x1000, 0x1000, 0x2000, 0x2000));
    let m = a.merge_with(&b).unwrap();
    assert_eq!((m.base, m.len), (0x1000, 0x3000));
    assert!(r.split_at(0x1000).is_none());
    let w = VmRegion::new(0x4000, 0x1000, VM_WRITE);
    assert!(r.merge_with(&w).is_none());
}

#[test]
fn map_refuses_overlaps_and_finds_gaps() {
    let mut m = VmMap::new();
    assert_eq!(m.insert(VmRegion::new(0x1000, 0x1000, VM_READ)), Ok(()));
    assert_eq!(m.insert(VmRegion::new(0x5000, 0x1000, VM_READ)), Ok(()));
    assert!(m.insert(VmRegion::new(0x1800, 0x1000, VM_READ)).is_err());
    assert_eq!(m.find(0x1fff).map(|r| r.base), Some(0x1000));
    assert!(m.find(0x2000).is_none());
    assert_eq!(m.total_mapped(), 0x2000);
    assert_eq!(m.gap_after(0), 0x3000);
    assert_eq!(m.remove_range(0x1000, 0x1000), 1);
    assert!(m.find(0x1000).is_none());
}

#[test]
fn kernel_stack_grows_down_from_its_top() {
    assert_eq!(KStk::new(0x10_0000).top(), 0x10_0000 + KSTK_SZ);
}

#[test]
fn frames_are_handed_out_once() {
    let mut p = FramePool::new(3);
    assert_eq!(p.get_inner(), Some(0));
    assert_eq!(p.get_inner(), Some(1));
    assert!(!p.avail(0));
    p.put(0);
    assert!(p.avail(0));
    assert_eq!(p.free_count(), 2);
    assert_eq!(p.batch_alloc(5), vec![0, 2]);
    assert_eq!(p.get_inner(), None);
}

#[test]
fn contiguous_frames_are_aligned() {
    let mut p = FramePool::new(8);
    p.get_inner();
    assert_eq!(p.get_contig(2, 1), Some(2));
    assert_eq!(p.get_contig(4, 2), Some(4));
    assert_eq!(p.get_contig(2, 0), None);
}

#[test]
fn frames_hold_what_is_written() {
    let mut p = FramePool::new(2);
    p.write_frame(1, 10, &[1, 2, 3]);
    let f = p.read_frame(1);
    assert_eq!(f.len() as u64, PAGE_SZ);
    assert_eq!(&f[9..14], &[0, 1, 2, 3, 0]);
    assert_eq!(p.read_frame(0), vec![0u8; PAGE_SZ as usize]);
}

#[test]
fn frame_addresses_follow_the_clock() {
    let mut p = FramePool::new(4);
    assert_eq!(frame_alloc(&mut p, 2), Some(2 * PAGE_SZ + MEM_OFF));
    assert_eq!(frame_alloc(&mut p, 2), Some(3 * PAGE_SZ + MEM_OFF));
    assert_eq!(frame_alloc(&mut p, 2), Some(MEM_OFF));
    frame_dealloc(&mut p, 3 * PAGE_SZ + MEM_OFF);
    assert!(p.avail(3));
    assert_eq!(frame_alloc_contig(&mut p, 2, 0), None);
    p.put(2);
    assert_eq!(frame_alloc_contig(&mut p, 2, 1), Some(2 * PAGE_SZ + MEM_OFF));
    assert_eq!(frame_alloc_contig(&mut p, 0, 0), None);
}

#[test]
fn heap_sizes() {
    assert_eq!(heap_init(0x1000, 0x2000), 0x3000);
    assert_eq!(heap_init(u64::MAX - 4095, 0xfff), u64::MAX - 4095);
    let mut p = FramePool::new(16);
    let runs = heap_grow(&mut p, 4);
    let total: u64 = runs.iter().map(|r| r.1).sum();
    assert_eq!(total, 4 * PAGE_SZ);
    assert_eq!(p.free_count(), 12);
    let _ = rdu_fixup();
}

#[test]
fn heap_stretches_are_the_free_pages() {
    let mut p = FramePool::new(6);
    p.get_inner();
    p.get_inner();
    p.get_inner();
    p.put(1);
    let base = p2v(0);
    assert_eq!(heap_grow(&mut p, 9), vec![(base + PAGE_SZ, PAGE_SZ), (base + 3 * PAGE_SZ, 3 * PAGE_SZ)]);
    assert_eq!(p.free_count(), 0);
    assert!(heap_grow(&mut p, 1).is_empty());
}

#[test]
fn free_addresses_are_found_between_regions() {
    let mut m = VmMap::new();
    let base = m.mmap_base;
    assert_eq!(m.find_free(0, 0), Some(base));
    assert_eq!(m.find_free(PAGE_SZ, 0), Some(base));
    m.insert(VmRegion::new(base, PAGE_SZ, VM_READ)).unwrap();
    m.insert(VmRegion::new(base + 2 * PAGE_SZ, 1, VM_READ)).unwrap();
    assert_eq!(m.find_free(PAGE_SZ, 0), Some(base + PAGE_SZ));
    assert_eq!(m.find_free(2 * PAGE_SZ, 0), Some(base + 3 * PAGE_SZ));
    assert_eq!(m.find_free(1, 0x10000), Some(base + 0x10000));
    assert_eq!(m.find_free(KERN_BASE, 0), None);
    // a region up to the end of the word that the search does not come to
    m.insert(VmRegion::new(KERN_BASE - PAGE_SZ, u64::MAX - KERN_BASE, VM_READ)).unwrap();
    assert_eq!(m.find_free(2 * PAGE_SZ, 0), Some(base + 3 * PAGE_SZ));
}

#[test]
fn first_write_to_a_shared_page_copies_it() {
    let mut pool = FramePool::new(4);
    let f = pool.get_inner().unwrap();
    pool.write_frame(f, 0, &[42]);
    let mut src = PgFrame::with_rc(f, 2);
    let mut page = SharedPage::new(f);
    assert!(!page.is_cow_resolved());
    let g = page.fault(&mut pool, &mut src).unwrap();
    assert_ne!(g, f);
    assert_eq!(page.frame_id(), g);
    assert!(page.is_cow_resolved());
    assert_eq!(src.count(), 1);
}

#[test]
fn zones_know_their_pressure() {
    let mut z = ZoneInfo::new(0, 100, 50, 10, 20);
    assert!(z.contains_pfn(100));
    assert!(z.contains_pfn(149));
    assert!(!z.contains_pfn(150));
    assert!(z.zone_can_alloc());
    z.free_count = 5;
    assert!(!z.zone_can_alloc());
    assert!(z.reclaim_target() > 0);
    assert!(z.zone_pressure() > 0);
}

#[test]
fn ring_gives_bytes_in_order() {
    let mut b = CircBuf::new(3);
    assert!(b.push(1));
    assert!(b.push(2));
    assert_eq!(b.pop(), Some(1));
    assert_eq!(b.fill_from(&[3, 4, 5]), 2);
    assert!(b.full());
    assert_eq!(b.remaining(), 0);
    assert_eq!(b.peek(), Some(2));
    let mut out = vec![];
    assert_eq!(b.drain_to(&mut out, 2), 2);
    assert_eq!(out, vec![2, 3]);
    assert_eq!(b.len(), 1);
    assert_eq!(b.pop(), Some(4));
    assert!(b.empty());
    assert_eq!(b.pop(), None);
}

#[test]
fn slab_objects_come_back() {
    let mut s = SlabEntry::new(16, 4);
    let a = s.slab_alloc(true).unwrap();
    let b = s.slab_alloc(true).unwrap();
    assert_ne!(a, b);
    assert_eq!(s.slab_used(), 2);
    s.obj_at_mut(a).unwrap()[0] = 7;
    assert_eq!(s.obj_at(a).unwrap()[0], 7);
    assert_eq!(s.obj_at(b).unwrap()[0], 0);
    s.slab_free(a);
    assert_eq!(s.slab_avail(), 3);
}

#[test]
fn buddies_split_and_join() {
    let mut b = BuddyAllocator::new(0x10000, 16, 4);
    assert_eq!(b.free_pages_count(), 16);
    let a = b.alloc_order(0).unwrap();
    let c = b.alloc_order(2).unwrap();
    assert_ne!(a, c);
    assert_eq!(b.free_pages_count(), 11);
    assert!(b.fragmentation_score() <= 100);
    b.free_order(a, 0);
    b.free_order(c, 2);
    assert_eq!(b.free_pages_count(), 16);
    assert_eq!(b.largest_free_order(), 4);
    assert_eq!(b.alloc_order(5), None);
}

#[test]
fn fork_shares_frames_until_one_writes() {
    let mut pool = FramePool::new(8);
    let mut parent = AddrSpace::new(1);
    parent.vm_map.insert(VmRegion::new(0x4000, 0x2000, VM_READ | VM_WRITE)).unwrap();
    let pa = parent.handle_cow_fault(0x4010, &mut pool).unwrap();
    assert_eq!(pa, MEM_OFF);
    let f = parent.cow_pages.get(0x4000).unwrap().frame_id;
    pool.write_frame(f, 0, &[9]);
    let mut child = AddrSpace::fork_from(&mut parent, 2);
    assert_eq!(child.cow_pages.get(0x4000).unwrap().frame_id, f);
    assert_eq!(parent.cow_sharers(), 1);
    assert_eq!(parent.vm_map.regions[0].ref_count, 2);
    assert_eq!(child.vm_map.regions[0].ref_count, 1);
    child.handle_cow_fault(0x4010, &mut pool).unwrap();
    let g = child.cow_pages.get(0x4000).unwrap().frame_id;
    assert_ne!(g, f);
    assert_eq!(pool.read_frame(g)[0], 9);
    pool.write_frame(g, 0, &[1]);
    assert_eq!(pool.read_frame(f)[0], 9);
    assert_eq!(child.rss_pages(), 1);
}

#[test]
fn address_space_errors() {
    let mut pool = FramePool::new(1);
    let mut a = AddrSpace::new(1);
    assert!(a.handle_cow_fault(0x1000, &mut pool).is_err());
    a.vm_map.insert(VmRegion::new(0x1000, 0x4000, VM_READ | VM_WRITE)).unwrap();
    assert!(a.handle_cow_fault(0x1000, &mut pool).is_ok());
    assert!(a.handle_cow_fault(0x2000, &mut pool).is_err());
    assert_eq!(a.split_region(0x3000), Ok(()));
    assert!(a.split_region(0x9000).is_err());
    assert_eq!(a.protect(0x1000, 0x2000, VM_READ), Ok(()));
    assert!(a.unmap_range(0x1000, 0x4000) > 0);
    assert_eq!(a.rss_pages(), 0);
}

#[test]
fn access_modes_are_checked() {
    assert_eq!(validate_access(0, 0x1000, 8, 5), Ok(()));
    assert_eq!(validate_access(1, 0x1000, 8, 5), Ok(()));
    assert_eq!(validate_access(2, 0x1000, KHEAP_SZ, 5), Ok(()));
    assert_eq!(validate_access(2, 0x1001, KHEAP_SZ, 5), Err("efault"));
    assert_eq!(validate_access(3, 0x1000, 8, 5), Err("einval"));
    assert_eq!(validate_access(9, KERN_BASE, 0, 5), Ok(()));
    assert_eq!(validate_access(0, u64::MAX, 2, 5), Err("eoverflow"));
    assert_eq!(validate_access(0, KERN_BASE - 8, 8, 5), Err("efault"));
}

#[test]
fn watermark_weighs_regions() {
    assert_eq!(compute_rss_watermark(&[], 100), 0);
    let regions = [
        VmRegion::new(0, 10 * PAGE_SZ, VM_READ | VM_WRITE),
        VmRegion::new(0x100_0000, PAGE_SZ + 1, VM_READ | VM_EXEC | VM_SHARED),
    ];
    assert_eq!(compute_rss_watermark(&regions, 1000), 4);
    assert_eq!(compute_rss_watermark(&regions, 20), 10);
}

#[test]
fn pressure_of_a_zone_is_exact() {
    let mut z = ZoneInfo::new(0, 0, 100, 10, 30);
    z.free_count = 25;
    assert_eq!((z.zone_pressure(), z.reclaim_target()), (25, 5));
    z.free_count = 10;
    assert_eq!((z.zone_pressure(), z.reclaim_target()), (100, 20));
    z.free_count = 30;
    assert_eq!((z.zone_pressure(), z.reclaim_target()), (0, 0));
}
