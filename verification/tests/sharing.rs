use kernel::{
    rehash_mount_cache, shm_get_or_create, MountEntry, SemArr, SemCtx, SemHeap, ShmCtx, ShmHeap,
};

#[test]
fn semaphores_live_while_held() {
    let mut h = SemHeap::new();
    let a = SemArr::get_or_create(5, 2, 0, &mut h).unwrap();
    assert_eq!(SemArr::get_or_create(5, 2, 0, &mut h), Ok(a));
    assert_eq!(SemArr::get_or_create(5, 2, 0x600, &mut h), Err("eexist"));
    h.release(a);
    h.release(a);
    let b = SemArr::get_or_create(5, 3, 0, &mut h).unwrap();
    assert_ne!(a, b);
    assert_eq!(h.arrays[b].sems.len(), 3);
}

#[test]
fn private_key_is_the_lowest_free_one() {
    let mut h = SemHeap::new();
    SemArr::get_or_create(1, 1, 0, &mut h).unwrap();
    let b = SemArr::get_or_create(0, 1, 0, &mut h).unwrap();
    assert_eq!(h.store.get(2), Some(&b));
}

#[test]
fn undo_gives_units_back() {
    let mut h = SemHeap::new();
    let a = SemArr::get_or_create(9, 1, 0, &mut h).unwrap();
    let mut c = SemCtx::new();
    let id = c.add(a);
    h.arrays[a].sems[0].set_val(1);
    assert_eq!(h.arrays[a].sems[0].try_acquire(), Ok(true));
    c.add_undo(id, 0, -1);
    assert_eq!(h.arrays[a].sems[0].get_val(), 0);
    c.close(&mut h);
    assert_eq!(h.arrays[a].sems[0].get_val(), 1);
}

#[test]
fn child_holds_what_the_parent_holds() {
    let mut h = SemHeap::new();
    let a = SemArr::get_or_create(9, 1, 0, &mut h).unwrap();
    let mut c = SemCtx::new();
    let id = c.add(a);
    let d = c.inherit(&mut h);
    assert_eq!(h.refs[a], 2);
    c.remove(&mut h, id);
    assert_eq!(h.refs[a], 1);
    d.close(&mut h);
    assert_eq!(h.refs[a], 0);
}

#[test]
fn shared_memory_is_found_by_key_and_address() {
    let mut h = ShmHeap::new();
    let g = shm_get_or_create(3, 4, &mut h);
    assert_eq!(shm_get_or_create(3, 4, &mut h), g);
    assert_eq!(h.pages[g].len(), 4);
    let mut c = ShmCtx::new();
    let id = c.add(g);
    let mut tag = c.get(&mut h, id).unwrap();
    tag.set_addr(0x8000);
    c.set(&mut h, id, tag);
    assert_eq!(c.get_id_by_addr(0x8000), Some(id));
    assert_eq!(c.get_id_by_addr(0x9000), None);
    c.pop(&mut h, id);
    assert_eq!(c.get_id_by_addr(0x8000), None);
}

#[test]
fn mount_cache_maps_hashes_to_places() {
    let v = vec![
        MountEntry { prefix: "/a".to_string(), target: "x".to_string() },
        MountEntry { prefix: "/b".to_string(), target: "y".to_string() },
    ];
    let m = rehash_mount_cache(&v);
    assert_eq!(m.len(), 2);
    let mut h: u64 = 0xcbf2_9ce4_8422_2325;
    for b in b"/a" {
        h ^= *b as u64;
        h = h.wrapping_mul(0x100_0000_01b3);
    }
    h ^= 1;
    h = h.wrapping_mul(0x517c_c1b7_2722_0a95);
    assert_eq!(m.get(h), Some(&0));
}
