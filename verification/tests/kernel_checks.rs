use kernel::{
    Kernel, VmRegion, KERN_BASE, MEM_OFF, PAGE_SZ, PROG_ENTRY, SYS_GETPID, TTY_CAP, VM_READ,
    VM_WRITE,
};

fn booted(frames: usize) -> Kernel {
    let mut k = Kernel::new(frames);
    k.proc_init(0x1000);
    k.set_cur(0, Some(0));
    k
}

fn with_memory(frames: usize) -> Kernel {
    let mut k = booted(frames);
    k.tasks.arena[0]
        .addr_space
        .vm_map
        .insert(VmRegion::new(0x1_0000, 0x1_0000, VM_READ | VM_WRITE))
        .unwrap();
    k
}

#[test]
fn first_process_is_number_one() {
    let k = booted(4);
    assert_eq!(k.tasks.root, Some(0));
    assert_eq!(k.tasks.arena[0].id(), 1);
    assert_eq!(k.tasks.arena[0].threads, vec![1]);
    assert_eq!(k.cur_task(0), Some(0));
    assert_eq!(k.cur_task(1), None);
    assert_eq!(k.cur_task(99), None);
}

#[test]
fn pages_come_when_they_are_written() {
    let mut k = with_memory(4);
    assert!(k.handle_pgfault(0x1_0004, 0));
    assert_eq!(k.pool.free_count(), 4);
    assert!(k.handle_pgfault(0x1_0004, 2));
    assert_eq!(k.pool.free_count(), 3);
    assert!(k.handle_pgfault(0x1_0fff, 2));
    assert_eq!(k.pool.free_count(), 3);
    assert!(!k.handle_pgfault(0x9_0000, 2));
    k.set_cur(0, None);
    assert!(!k.handle_pgfault(0x1_0004, 0));
}

#[test]
fn bytes_cross_into_user_memory_and_back() {
    let mut k = with_memory(4);
    assert!(k.handle_pgfault(0x1_0000, 2));
    assert!(k.handle_pgfault(0x1_1000, 2));
    let data: Vec<u8> = (0..100).collect();
    assert_eq!(k.copy_to_user(0x1_0fd0, &data), Ok(()));
    let mut back = vec![0u8; 100];
    assert_eq!(k.copy_from_user(0x1_0fd0, &mut back), Ok(()));
    assert_eq!(back, data);
    let mut one = [9u8];
    k.copy_from_user(0x1_0fcf, &mut one).unwrap();
    assert_eq!(one, [0]);
    k.set_cur(0, None);
    assert_eq!(k.copy_to_user(0x1_0000, &[1]), Err("esrch"));
    assert_eq!(k.copy_from_user(0x1_0000, &mut one), Err("esrch"));
}

#[test]
fn page_without_a_frame_is_passed_over() {
    let mut k = with_memory(4);
    assert_eq!(k.copy_to_user(0x1_0000, &[1, 2]), Ok(()));
    let mut b = [7u8; 2];
    k.copy_from_user(0x1_0000, &mut b).unwrap();
    assert_eq!(b, [7, 7]);
}

#[test]
fn fork_keeps_memories_apart() {
    let mut k = with_memory(8);
    k.handle_pgfault(0x1_0000, 2);
    k.copy_to_user(0x1_0000, b"before").unwrap();
    assert_eq!(k.do_fork(1), Ok(2));
    assert_eq!(k.do_fork(77), Err("esrch"));
    k.set_cur(0, Some(1));
    assert!(k.handle_pgfault(0x1_0000, 2));
    k.copy_to_user(0x1_0000, b"child!").unwrap();
    let mut b = [0u8; 6];
    k.copy_from_user(0x1_0000, &mut b).unwrap();
    assert_eq!(&b, b"child!");
    k.set_cur(0, Some(0));
    k.copy_from_user(0x1_0000, &mut b).unwrap();
    assert_eq!(&b, b"before");
    assert!(k.handle_pgfault(0x1_0000, 2));
    k.copy_to_user(0x1_0000, b"parent").unwrap();
    k.set_cur(0, Some(1));
    k.copy_from_user(0x1_0000, &mut b).unwrap();
    assert_eq!(&b, b"child!");
}

#[test]
fn exec_starts_over() {
    let mut k = booted(4);
    assert_eq!(k.do_pipe(1), Ok((0, 1)));
    assert_eq!(k.tasks.arena[0].dup_fd(0, true), Ok(2));
    let r = k.do_exec(1, "/bin/ls", vec!["ls".to_string()], vec![]);
    assert_eq!(r, Ok(()));
    assert_eq!(k.tasks.arena[0].exec_path, "/bin/ls");
    let c = k.tasks.arena[0].thd_ctx.unwrap();
    assert_eq!(c.uctx.ip, PROG_ENTRY);
    assert_eq!(k.tasks.arena[0].fd_count(), 3);
    assert_eq!(k.do_exec(9, "/x", vec![], vec![]), Err("esrch"));
}

#[test]
fn exec_closes_marked_files() {
    let mut k = booted(4);
    assert_eq!(k.open_at("/a", 0o100 | 0o2000000 | 2), Ok(0));
    assert_eq!(k.open_at("/b", 0o100 | 2), Ok(1));
    k.do_exec(1, "/bin/ls", vec![], vec![]).unwrap();
    assert!(k.tasks.arena[0].get_file(0).is_none());
    assert!(k.tasks.arena[0].get_file(1).is_some());
}

#[test]
fn wait_reaps_the_right_child() {
    let mut k = booted(4);
    assert_eq!(k.do_wait(1, -1, 0), Err("echild"));
    assert_eq!(k.do_fork(1), Ok(2));
    assert_eq!(k.do_fork(1), Ok(3));
    assert_eq!(k.do_wait(1, -1, 0), Err("echild"));
    assert_eq!(k.do_wait(1, -1, 1), Ok((0, 0)));
    k.set_cur(0, Some(2));
    assert_eq!(k.sys_exit(5), Ok(0));
    assert_eq!(k.do_wait(1, 2, 1), Ok((0, 0)));
    assert_eq!(k.do_wait(1, 3, 0), Ok((3, 5)));
    assert_eq!(k.tasks.find(3), None);
    assert_eq!(k.do_wait(42, 3, 0), Err("esrch"));
}

#[test]
fn zombies_are_reclaimed() {
    let mut k = booted(4);
    k.do_fork(1).unwrap();
    k.do_fork(1).unwrap();
    k.set_cur(0, Some(1));
    k.sys_exit(0).unwrap();
    assert_eq!(k.reclaim_zombies(), 1);
    assert_eq!(k.reclaim_zombies(), 0);
    assert_eq!(k.tasks.count(), 2);
}

#[test]
fn terminal_keeps_its_order_and_bound() {
    let mut k = booted(1);
    assert_eq!(k.tty_pop(), None);
    k.tty_push(b'a');
    k.tty_push(b'\r');
    assert_eq!(k.tty_pop(), Some(b'a'));
    assert_eq!(k.tty_pop(), Some(b'\n'));
    for _ in 0..TTY_CAP + 5 {
        k.tty_push(b'x');
    }
    assert_eq!(k.tty_buf.len(), TTY_CAP);
}

#[test]
fn pages_are_allocated_and_freed() {
    let mut k = Kernel::new(4);
    let v = k.alloc_pages(3);
    assert_eq!(v, vec![MEM_OFF, MEM_OFF + PAGE_SZ, MEM_OFF + 2 * PAGE_SZ]);
    assert_eq!(k.memory_pressure(), 75);
    assert_eq!(k.alloc_pages(3), vec![MEM_OFF + 3 * PAGE_SZ]);
    assert_eq!(k.memory_pressure(), 100);
    k.free_pages(&v);
    assert_eq!(k.memory_pressure(), 25);
    k.free_pages(&[MEM_OFF + 100 * PAGE_SZ]);
    assert_eq!(k.memory_pressure(), 25);
    assert_eq!(Kernel::new(0).memory_pressure(), 100);
}

#[test]
fn paths_lead_through_mounts() {
    let mut k = booted(1);
    k.mnt.bind("/mnt", "disk0");
    assert_eq!(k.lookup_path("/mnt/a"), Ok("disk0:/a".to_string()));
    assert_eq!(k.lookup_path(""), Err("enoent"));
}

#[test]
fn tick_writes_modified_blocks() {
    let mut k = booted(1);
    let ino = k.fs.create_file(0, "a").unwrap();
    k.fs.write_data(ino, 0, b"data", &mut k.cache, &mut k.disk).unwrap();
    assert_eq!(k.cache_stats(), (1, 1));
    k.tick(1);
    assert_eq!(k.cache_stats(), (1, 0));
    let blk = k.fs.inodes.get(ino).unwrap().blocks[0];
    let mut out = [0u8; 4];
    k.disk.read_block(blk, &mut out).unwrap();
    assert_eq!(&out, b"data");
}

#[test]
fn idle_cpu_gets_the_next_task() {
    let mut k = booted(1);
    assert_eq!(k.balance_load(), 1);
    k.set_cur(0, None);
    assert_eq!(k.balance_load(), 0);
}

#[test]
fn semaphores_and_shared_memory_by_key() {
    let mut k = booted(1);
    let a = k.get_sem(7, 2, 0).unwrap();
    assert_eq!(k.get_sem(7, 2, 0), Ok(a));
    assert_eq!(k.get_sem(7, 2, 0x600), Err("eexist"));
    let g = k.get_shm(7, 3);
    assert_eq!(k.get_shm(7, 3), g);
}

#[test]
fn clock_ticks_by_cpu() {
    let mut k = booted(1);
    k.schedule_tick(0);
    k.schedule_tick(1);
    assert_eq!((k.clock.clk, k.clock.clk_all), (1, 2));
}

#[test]
fn dispatcher_reaches_the_calls() {
    let mut k = booted(1);
    assert_eq!(k.dispatch_syscall(SYS_GETPID, 0, 0, 0, 0, 0, 0), Ok(1));
    assert_eq!(k.dispatch_syscall(9999, 0, 0, 0, 0, 0, 0), Err("enosys"));
    assert_eq!(k.dispatch_syscall(0, 0, KERN_BASE, 8, 0, 0, 0), Err("efault"));
}
