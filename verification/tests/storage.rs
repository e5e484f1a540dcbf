use kernel::{
    BlockCache, Disk, IoQueue, KObjRegistry, PageCache, SimpleFS, BLANK, BLOCK_SZ, DISK_BLOCK,
    ERRS_FOREVER, NO_INO,
};

#[test]
fn disk_keeps_what_is_written() {
    let mut d = Disk::new("main");
    let data = vec![7u8; DISK_BLOCK];
    assert_eq!(d.write_block(3, &data), Ok(()));
    let mut out = vec![0u8; DISK_BLOCK];
    assert_eq!(d.read_block(3, &mut out), Ok(()));
    assert_eq!(out, data);
    assert_eq!(d.read_block(4, &mut out), Ok(()));
    assert_eq!(out, vec![BLANK; DISK_BLOCK]);
    assert_eq!(d.total_ops(), 3);
    d.reset_ops();
    assert_eq!(d.total_ops(), 0);
}

#[test]
fn short_write_keeps_the_rest_of_the_block() {
    let mut d = Disk::new("main");
    d.write_block(1, &vec![1u8; DISK_BLOCK]).unwrap();
    d.write_block(1, &[9, 9]).unwrap();
    let mut out = vec![0u8; 4];
    d.read_block(1, &mut out).unwrap();
    assert_eq!(out, vec![9, 9, 1, 1]);
}

#[test]
fn failing_disk_gives_up_or_recovers() {
    let mut d = Disk::failing("bad", 2);
    let mut out = vec![0u8; 8];
    assert!(d.read_block_n(0, &mut out, 2).is_err());
    assert!(d.read_block(0, &mut out).is_ok());
    d.set_errs(1);
    assert!(d.write_block(0, &[1]).is_err());
    assert!(d.write_block(0, &[1]).is_ok());
}

#[test]
fn requests_are_served_along_the_way() {
    let mut q = IoQueue::new();
    q.submit(50, false, 0, 1);
    q.submit(10, true, 0, 2);
    q.submit(30, false, 0, 3);
    assert_eq!(q.depth(), 3);
    let mut order = Vec::new();
    while let Some((b, _)) = q.dispatch() {
        order.push(b);
    }
    assert_eq!(order, vec![10, 30, 50]);
    assert_eq!(q.dispatched, 3);
}

#[test]
fn elevator_turns_to_the_nearest() {
    let mut q = IoQueue::new();
    q.submit(50, false, 0, 1);
    assert_eq!(q.dispatch(), Some((50, false)));
    q.submit(40, false, 0, 2);
    assert_eq!(q.dispatch(), Some((40, false)));
    assert!(q.direction_up);
    q.submit(10, false, 0, 3);
    q.submit(30, false, 0, 4);
    assert_eq!(q.dispatch(), Some((30, false)));
    assert!(!q.direction_up);
    q.submit(31, true, 0, 5);
    assert_eq!(q.dispatch(), Some((10, false)));
    assert!(q.direction_up);
    q.dispatch();
    assert!(!q.direction_up);
    q.submit(90, false, 0, 6);
    q.submit(60, true, 0, 7);
    q.submit(60, false, 0, 8);
    assert_eq!(q.dispatch(), Some((60, true)));
    assert!(q.direction_up);
    q.submit(u64::MAX, false, 0, 9);
    assert_eq!(q.dispatch(), Some((60, false)));
    assert_eq!(q.dispatch(), Some((90, false)));
    assert_eq!(q.dispatch(), Some((u64::MAX, false)));
    assert_eq!(q.dispatch(), None);
}

#[test]
fn batch_submission_counts() {
    let mut q = IoQueue::new();
    assert_eq!(q.submit_batch(&[(1, true, 0), (2, true, 0)], 5), 2);
    assert_eq!(q.depth(), 2);
}

#[test]
fn page_cache_evicts_the_least_recently_used() {
    let mut c = PageCache::new(2);
    c.insert(1, vec![1], 1);
    c.insert(2, vec![2], 2);
    assert_eq!(c.lookup(1, 3), Some(&vec![1]));
    c.insert(3, vec![3], 4);
    assert_eq!(c.lookup(2, 5), None);
    assert_eq!(c.lookup(1, 6), Some(&vec![1]));
    assert_eq!(c.stats(), (2, 1, 1));
}

#[test]
fn pinned_page_stays() {
    let mut c = PageCache::new(2);
    c.insert(1, vec![1], 1);
    assert!(c.pin(1));
    c.insert(2, vec![2], 2);
    c.insert(3, vec![3], 3);
    assert_eq!(c.lookup(1, 4), Some(&vec![1]));
    assert!(c.unpin(1));
    assert!(!c.pin(99));
}

#[test]
fn dirty_pages_are_written_back_once() {
    let mut c = PageCache::new(4);
    for i in 0..3 {
        c.insert(i, vec![i as u8], i);
        c.mark_dirty(i);
    }
    assert_eq!(c.flush_range(0, 1), 1);
    assert_eq!(c.writeback_all(), 2);
    assert_eq!(c.writeback_all(), 0);
    assert!(c.invalidate(0));
    assert!(!c.invalidate(0));
}

#[test]
fn objects_are_swept_when_nobody_holds_them() {
    let mut r = KObjRegistry::new();
    let a = r.register(1, 7, 0);
    let b = r.register_child(1, 7, a, 0);
    assert_eq!(r.count(), 2);
    assert_eq!(r.find_by_type(1), vec![a, b]);
    assert_eq!(r.owner_objects(7), vec![a, b]);
    assert_eq!(r.dump_graph(), vec![(a, b)]);
    assert!(r.ref_up(a));
    assert!(r.ref_down(b));
    r.gc_sweep();
    assert_eq!(r.find_by_type(1), vec![a]);
    assert!(r.unregister(a));
    assert!(!r.unregister(a));
}

#[test]
fn cached_block_reaches_the_disk_when_synced() {
    let mut d = Disk::new("main");
    let mut c = BlockCache::new(8);
    assert_eq!(c.fetch(5, &mut d), Some(vec![BLANK; DISK_BLOCK]));
    c.put(5, vec![3u8; DISK_BLOCK]);
    assert_eq!(c.dirty_count(), 1);
    assert_eq!(c.fetch(5, &mut d), Some(vec![3u8; DISK_BLOCK]));
    c.sync_all(&mut d);
    assert_eq!(c.dirty_count(), 0);
    let mut out = vec![0u8; DISK_BLOCK];
    d.read_block(5, &mut out).unwrap();
    assert_eq!(out, vec![3u8; DISK_BLOCK]);
    assert_eq!(c.total_entries(), 1);
    c.invalidate(5);
    assert_eq!(c.total_entries(), 0);
}

fn fresh() -> (SimpleFS, BlockCache, Disk) {
    (SimpleFS::new(), BlockCache::new(16), Disk::new("main"))
}

#[test]
fn file_reads_back_what_was_written() {
    let (mut fs, mut c, mut d) = fresh();
    let ino = fs.create_file(0, "a").unwrap();
    let data: Vec<u8> = (0..1300u32).map(|i| (i % 251) as u8).collect();
    assert_eq!(fs.write_data(ino, 100, &data, &mut c, &mut d), Ok(1300));
    assert_eq!(fs.read_data(ino, 100, 1300, &mut c, &mut d).unwrap(), data);
    assert_eq!(fs.read_data(ino, 1390, 100, &mut c, &mut d).unwrap(), data[1290..].to_vec());
    assert_eq!(fs.read_data(ino, 5000, 10, &mut c, &mut d).unwrap(), Vec::<u8>::new());
}

#[test]
fn files_do_not_disturb_each_other() {
    let (mut fs, mut c, mut d) = fresh();
    let a = fs.create_file(0, "a").unwrap();
    let b = fs.create_file(0, "b").unwrap();
    fs.write_data(a, 0, &vec![1u8; 600], &mut c, &mut d).unwrap();
    fs.write_data(b, 0, &vec![2u8; 600], &mut c, &mut d).unwrap();
    fs.write_data(a, 10, b"x", &mut c, &mut d).unwrap();
    let got = fs.read_data(a, 0, 600, &mut c, &mut d).unwrap();
    assert_eq!((got[9], got[10], got[11]), (1, b'x', 1));
    assert_eq!(fs.read_data(b, 0, 600, &mut c, &mut d).unwrap(), vec![2u8; 600]);
}

#[test]
fn cold_modified_blocks_are_evicted() {
    let mut d = Disk::new("main");
    let mut c = BlockCache::new(4);
    c.fetch(1, &mut d);
    c.put(2, vec![0u8; DISK_BLOCK]);
    assert_eq!(c.total_entries(), 2);
    assert_eq!(c.evict_cold(994, 1000), 0);
    assert_eq!(c.evict_cold(993, 1000), 1);
    assert_eq!(c.total_entries(), 1);
    assert_eq!(c.dirty_count(), 0);
}

#[test]
fn chains_keep_the_order_of_arrival() {
    let ids = |c: &BlockCache| -> Vec<u64> { c.chains[0].items.iter().map(|s| s.id).collect() };
    let mut d = Disk::new("main");
    let mut c = BlockCache::new(1);
    c.put(9, vec![9u8; DISK_BLOCK]);
    c.fetch(3, &mut d);
    c.put(5, vec![5u8; DISK_BLOCK]);
    c.put(9, vec![8u8; DISK_BLOCK]);
    c.fetch(9, &mut d);
    assert_eq!(ids(&c), vec![9, 3, 5]);
    c.put(1, vec![1u8; DISK_BLOCK]);
    c.invalidate(3);
    c.invalidate(77);
    assert_eq!(ids(&c), vec![9, 5, 1]);
    assert_eq!((c.total_entries(), c.dirty_count()), (3, 3));
    d.set_errs(2);
    c.sync_all(&mut d);
    assert_eq!(ids(&c), vec![9, 5, 1]);
    assert_eq!((c.total_entries(), c.dirty_count()), (3, 0));
    let mut out = vec![0u8; DISK_BLOCK];
    d.read_block(9, &mut out).unwrap();
    assert_eq!(out, vec![BLANK; DISK_BLOCK]);
    d.read_block(5, &mut out).unwrap();
    assert_eq!(out, vec![BLANK; DISK_BLOCK]);
    d.read_block(1, &mut out).unwrap();
    assert_eq!(out, vec![1u8; DISK_BLOCK]);
}

#[test]
fn reading_leaves_other_blocks_alone() {
    let (mut fs, mut c, mut d) = fresh();
    let ino = fs.create_file(0, "a").unwrap();
    assert_eq!(fs.write_data(ino, 0, b"abc", &mut c, &mut d), Ok(3));
    c.put(1000, vec![7u8; 3]);
    assert_eq!(fs.read_data(ino, 0, 9, &mut c, &mut d), Ok(b"abc".to_vec()));
    assert_eq!(fs.write_data(ino, 1, b"X", &mut c, &mut d), Ok(1));
    assert_eq!(fs.read_data(ino, 0, 9, &mut c, &mut d), Ok(b"aXc".to_vec()));
    assert_eq!(c.fetch(1000, &mut d), Some(vec![7u8; 3]));
}

#[test]
fn neighbouring_requests_merge() {
    let mut q = IoQueue::new();
    q.submit(7, true, 1, 0);
    q.submit(8, true, 1, 0);
    q.submit(20, true, 1, 0);
    let n = q.merge_adjacent();
    assert_eq!(q.depth(), 3 - n);
    assert_eq!(q.merged, n as u64);
}

#[test]
fn file_survives_sync_and_eviction() {
    let (mut fs, mut c, mut d) = fresh();
    let ino = fs.create_file(0, "a").unwrap();
    fs.write_data(ino, 0, b"persistent", &mut c, &mut d).unwrap();
    c.sync_all(&mut d);
    let mut c2 = BlockCache::new(16);
    assert_eq!(fs.read_data(ino, 0, 10, &mut c2, &mut d).unwrap(), b"persistent".to_vec());
}

#[test]
fn paths_lead_through_directories() {
    let (mut fs, _c, _d) = fresh();
    let dir = fs.create_dir(0, "etc").unwrap();
    let f = fs.create_file(dir, "passwd").unwrap();
    assert_eq!(fs.resolve("/etc/passwd"), Ok(f));
    assert_eq!(fs.resolve("//etc//passwd"), Ok(f));
    assert_eq!(fs.resolve("/"), Ok(0));
    assert_eq!(fs.resolve("/etc/none"), Err("enoent"));
    assert_eq!(fs.lookup("/etc/none").unwrap().ino, NO_INO);
    assert_eq!(fs.resolve("/none/x"), Err("enoent"));
    assert_eq!(fs.resolve("/etc/passwd/x"), Err("enotdir"));
    assert_eq!(fs.resolve(""), Err("enoent"));
    let l = fs.lookup("/etc/none").unwrap();
    assert_eq!((l.parent_ino, l.name.as_str()), (dir, "none"));
}

#[test]
fn file_system_errors() {
    let (mut fs, mut c, mut d) = fresh();
    let dir = fs.create_dir(0, "d").unwrap();
    assert_eq!(fs.create_dir(0, "d"), Err("eexist"));
    let f = fs.create_file(0, "f").unwrap();
    assert_eq!(fs.create_file(f, "x"), Err("enotdir"));
    assert_eq!(fs.create_file(77, "x"), Err("enoent"));
    assert_eq!(fs.read_data(dir, 0, 1, &mut c, &mut d), Err("eisdir"));
    assert_eq!(fs.write_data(99, 0, b"x", &mut c, &mut d), Err("enoent"));
    assert_eq!(fs.unlink(0, "zzz"), Err("enoent"));
    assert_eq!(fs.unlink(0, "f"), Ok(()));
    assert_eq!(fs.resolve("/f"), Err("enoent"));
    assert_eq!(fs.truncate(f, 0), Err("enoent"));
}

#[test]
fn truncation_gives_up_blocks() {
    let (mut fs, mut c, mut d) = fresh();
    let f = fs.create_file(0, "f").unwrap();
    fs.write_data(f, 0, &vec![1u8; 3 * BLOCK_SZ as usize], &mut c, &mut d).unwrap();
    assert_eq!(fs.inodes.get(f).unwrap().blocks.len(), 3);
    fs.truncate(f, BLOCK_SZ + 1).unwrap();
    assert_eq!(fs.inodes.get(f).unwrap().blocks.len(), 2);
    assert_eq!(fs.read_data(f, 0, 5000, &mut c, &mut d).unwrap().len() as u64, BLOCK_SZ + 1);
}

#[test]
fn truncated_file_keeps_its_front() {
    let (mut fs, mut c, mut d) = fresh();
    let f = fs.create_file(0, "f").unwrap();
    let data: Vec<u8> = (0..1300u32).map(|i| (i % 251) as u8).collect();
    fs.write_data(f, 0, &data, &mut c, &mut d).unwrap();
    fs.truncate(f, 700).unwrap();
    assert_eq!(fs.read_data(f, 0, 5000, &mut c, &mut d).unwrap(), data[..700].to_vec());
    assert_eq!(fs.read_data(f, 0, 600, &mut c, &mut d).unwrap(), data[..600].to_vec());
    assert_eq!(fs.read_data(f, 650, 600, &mut c, &mut d).unwrap(), data[650..700].to_vec());
    assert_eq!(fs.read_data(f, 700, 1, &mut c, &mut d).unwrap(), Vec::<u8>::new());
}

#[test]
fn nothing_read_and_nothing_written() {
    let (mut fs, mut c, mut d) = fresh();
    let f = fs.create_file(0, "a").unwrap();
    assert_eq!(fs.write_data(f, 0, &[], &mut c, &mut d), Ok(0));
    assert_eq!(fs.inodes.get(f).unwrap().size, 0);
    assert_eq!(fs.inodes.get(f).unwrap().blocks.len(), 0);
    assert_eq!(c.total_entries(), 0);
    assert_eq!(fs.write_data(f, 0, b"Z", &mut c, &mut d), Ok(1));
    assert_eq!(fs.read_data(f, 0, 0, &mut c, &mut d), Ok(vec![]));
    assert_eq!(fs.read_data(f, 0, 1, &mut c, &mut d), Ok(b"Z".to_vec()));
    assert_eq!(fs.write_data(f, 0, &[], &mut c, &mut d), Ok(0));
    assert_eq!(fs.inodes.get(f).unwrap().size, 1);
}

#[test]
fn unlinking_undoes_creating() {
    let (mut fs, _c, _d) = fresh();
    let dir = fs.create_dir(0, "etc").unwrap();
    let kept = fs.create_file(dir, "kept").unwrap();
    let made = fs.create_file(dir, "made").unwrap();
    assert_eq!(fs.resolve("/etc/made"), Ok(made));
    assert_eq!(fs.unlink(dir, "made"), Ok(()));
    assert!(fs.inodes.get(made).is_none());
    assert_eq!(fs.resolve("/etc/kept"), Ok(kept));
    let l = fs.lookup("/etc/made").unwrap();
    assert_eq!((l.ino, l.parent_ino, l.name.as_str()), (NO_INO, dir, "made"));
}

#[test]
fn page_filed_again_is_the_last_to_go() {
    let mut c = PageCache::new(2);
    c.insert(1, vec![1], 1);
    c.insert(2, vec![2], 2);
    c.capacity = 3;
    c.insert(1, vec![9], 3);
    assert_eq!(c.lru_order, vec![2, 1]);
    assert!(c.evict_lru());
    assert_eq!(c.lookup(1, 4), Some(&vec![9]));
    assert_eq!(c.lookup(2, 5), None);
}

#[test]
fn broken_disk_fails_at_once() {
    let mut d = Disk::failing("d", ERRS_FOREVER);
    d.attach_journal(Disk::new("j"));
    let mut out = [7u8; 4];
    assert_eq!(d.read_block(3, &mut out), Err("io_error"));
    assert_eq!(out, [7u8; 4]);
    assert_eq!(d.total_ops(), 1);
    assert_eq!(d.journal.as_ref().unwrap().total_ops(), 1);
    assert_eq!(d.read_block_n(3, &mut out, 0), Err("io_error"));
    assert_eq!(d.total_ops(), 2);
    assert_eq!(d.read_block_n(3, &mut out, 4), Err("limit"));
    assert_eq!(d.total_ops(), 6);
    assert_eq!(d.errs, ERRS_FOREVER);
    d.set_errs(0);
    assert_eq!(d.read_block(3, &mut out), Ok(()));
    assert_eq!(out, [0xAA; 4]);
}

#[test]
fn cached_blocks_outlive_the_disk() {
    let mut c = BlockCache::new(4);
    let mut d = Disk::new("d");
    c.put(1, vec![1u8; 512]);
    d.set_errs(ERRS_FOREVER);
    assert_eq!(c.fetch(1, &mut d), Some(vec![1u8; 512]));
    assert_eq!(d.total_ops(), 0);
    assert_eq!(c.fetch(2, &mut d), None);
    assert_eq!(d.total_ops(), 1);
    assert_eq!(c.total_entries(), 1);
}

#[test]
fn write_stops_at_the_broken_disk() {
    let (mut fs, mut c, mut d) = fresh();
    let ino = fs.create_file(0, "f").unwrap();
    assert_eq!(fs.write_data(ino, 0, &[1u8; 600], &mut c, &mut d), Ok(600));
    d.set_errs(ERRS_FOREVER);
    assert_eq!(fs.read_data(ino, 0, 600, &mut c, &mut d), Ok(vec![1u8; 600]));
    assert_eq!(fs.write_data(ino, 0, &[2u8; 1200], &mut c, &mut d), Err("io_error"));
    assert_eq!(fs.read_data(ino, 0, 2000, &mut c, &mut d), Ok(vec![2u8; 600]));
    fs.truncate(ino, 1200).unwrap();
    assert_eq!(fs.read_data(ino, 0, 2000, &mut c, &mut d), Err("io_error"));
    d.set_errs(0);
    let all = fs.read_data(ino, 0, 2000, &mut c, &mut d).unwrap();
    assert_eq!(&all[..1024], &[2u8; 1024][..]);
    assert_eq!(&all[1024..], &[0xAAu8; 176][..]);
}
