use kernel::{
    Kernel, VmRegion, FD_CLOEXEC, FIONBIO, FIONCLEX, F_DUPFD, F_DUPFD_CLOEXEC, F_GETFD, F_GETFL,
    F_GETLK, F_SETFD, F_SETFL, F_SETLK, KERN_BASE, MMAP_START, NO_INO, O_APPEND, O_CLOEXEC,
    O_NONBLOCK, PAGE_SZ, SIGCHLD, SIGKILL, SIGSTOP, SIGUSR1, SYS_BRK, SYS_CLOCK_GETTIME,
    SYS_CLOSE, SYS_DUP, SYS_DUP2, SYS_EPOLL_CREATE, SYS_EPOLL_CTL, SYS_EPOLL_WAIT, SYS_EXEC,
    SYS_EXIT, SYS_FCNTL, SYS_FORK, SYS_FSTAT, SYS_FUTEX, SYS_GETPGID, SYS_GETPID, SYS_GETPPID,
    SYS_IOCTL, SYS_KILL, SYS_MKDIR, SYS_MMAP, SYS_MUNMAP, SYS_OPEN, SYS_PIPE, SYS_READ,
    SYS_SETPGID, SYS_SETSID, SYS_SIGACTION, SYS_SIGPROCMASK, SYS_STAT, SYS_UNLINK, SYS_WAIT4,
    SYS_WRITE, TCGETS, TIOCGWINSZ, VM_READ, VM_WRITE,
};

const MEM: u64 = 0x1_0000;

fn machine() -> Kernel {
    let mut k = Kernel::new(65536);
    k.proc_init(0x1000);
    k.set_cur(0, Some(0));
    k.tasks.arena[0]
        .addr_space
        .vm_map
        .insert(VmRegion::new(MEM, 0x1_0000, VM_READ | VM_WRITE))
        .unwrap();
    for i in 0..4 {
        assert!(k.handle_pgfault(MEM + i * PAGE_SZ, 2));
    }
    k
}

fn call(k: &mut Kernel, nr: u64, a: &[u64]) -> Result<u64, &'static str> {
    let mut v = [0u64; 6];
    v[..a.len()].copy_from_slice(a);
    k.dispatch_syscall(nr, v[0], v[1], v[2], v[3], v[4], v[5])
}

fn put(k: &mut Kernel, at: u64, b: &[u8]) {
    k.copy_to_user(at, b).unwrap();
}

fn get(k: &Kernel, at: u64, n: usize) -> Vec<u8> {
    let mut b = vec![0u8; n];
    k.copy_from_user(at, &mut b).unwrap();
    b
}

#[test]
fn file_is_written_and_read_back() {
    let mut k = machine();
    put(&mut k, MEM, b"/notes\0");
    let fd = call(&mut k, SYS_OPEN, &[MEM, 0o100 | 2]).unwrap();
    assert_eq!(fd, 0);
    put(&mut k, MEM + 512, b"some bytes");
    assert_eq!(call(&mut k, SYS_WRITE, &[fd, MEM + 512, 10]), Ok(10));
    assert_eq!(call(&mut k, SYS_READ, &[fd, MEM + 1024, 10]), Ok(0));
    let fd2 = call(&mut k, SYS_OPEN, &[MEM, 0]).unwrap();
    assert_eq!(fd2, 1);
    assert_eq!(call(&mut k, SYS_READ, &[fd2, MEM + 1024, 4]), Ok(4));
    assert_eq!(get(&k, MEM + 1024, 4), b"some".to_vec());
    assert_eq!(call(&mut k, SYS_READ, &[fd2, MEM + 1024, 100]), Ok(6));
    assert_eq!(get(&k, MEM + 1024, 6), b" bytes".to_vec());
    assert_eq!(call(&mut k, SYS_CLOSE, &[fd]), Ok(0));
    assert_eq!(call(&mut k, SYS_CLOSE, &[fd]), Err("ebadf"));
}

#[test]
fn write_then_read_across_blocks_and_pages() {
    let mut k = machine();
    let fd = k.open_at("/big", 0o100 | 2).unwrap();
    let data: Vec<u8> = (0..3000u32).map(|i| (i * 7 % 253) as u8).collect();
    put(&mut k, MEM + 3000, &data);
    assert_eq!(call(&mut k, SYS_WRITE, &[fd, MEM + 3000, 3000]), Ok(3000));
    let g = k.open_at("/big", 0).unwrap();
    assert_eq!(call(&mut k, SYS_READ, &[g, MEM + 8000, 3000]), Ok(3000));
    assert_eq!(get(&k, MEM + 8000, 3000), data);
}

#[test]
fn open_flags() {
    let mut k = machine();
    assert_eq!(k.open_at("/f", 0), Err("enoent"));
    assert_eq!(k.open_at("/f", 0o100 | 1), Ok(0));
    assert_eq!(k.open_at("/f", 0o300), Err("eexist"));
    put(&mut k, MEM, b"xyz");
    assert_eq!(call(&mut k, SYS_WRITE, &[0, MEM, 3]), Ok(3));
    let ino = k.fs.resolve("/f").unwrap();
    assert_eq!(k.fs.inodes.get(ino).unwrap().size, 3);
    assert_eq!(k.open_at("/f", 0o1000), Ok(1));
    assert_eq!(k.fs.inodes.get(ino).unwrap().size, 3);
    assert_eq!(k.open_at("/f", 0o1000 | 2 | O_APPEND | O_NONBLOCK | O_CLOEXEC), Ok(2));
    assert_eq!(k.fs.inodes.get(ino).unwrap().size, 0);
    let d = k.heap.descs[2];
    assert!(d.opt.rd && d.opt.wr && d.opt.ap && d.opt.nb);
    assert_eq!(k.open_at("/f/g", 0), Err("enotdir"));
    k.set_cur(0, None);
    assert_eq!(k.open_at("/f", 0), Err("esrch"));
}

#[test]
fn paths_come_from_user_memory() {
    let mut k = machine();
    put(&mut k, MEM, b"/d\0rest");
    assert_eq!(call(&mut k, SYS_MKDIR, &[MEM]), Ok(0));
    assert_eq!(call(&mut k, SYS_MKDIR, &[MEM]), Err("eexist"));
    put(&mut k, MEM, "/d/ä\0".as_bytes());
    assert_eq!(call(&mut k, SYS_OPEN, &[MEM, 0o100]), Ok(0));
    assert_ne!(k.fs.resolve("/d/ä").unwrap(), NO_INO);
    assert_eq!(call(&mut k, SYS_UNLINK, &[MEM]), Ok(0));
    assert_eq!(call(&mut k, SYS_UNLINK, &[MEM]), Err("enoent"));
    put(&mut k, MEM, &[b'/', 0xff, b'x', 0]);
    assert_eq!(call(&mut k, SYS_OPEN, &[MEM, 0o100]), Ok(1));
    assert_ne!(k.fs.resolve("/\u{fffd}x").unwrap(), NO_INO);
}

#[test]
fn empty_path_gets_a_name_from_its_address() {
    let mut k = machine();
    assert_eq!(call(&mut k, SYS_OPEN, &[MEM + 7, 0o100]), Ok(0));
    assert_ne!(k.fs.resolve("/file_7").unwrap(), NO_INO);
    assert_eq!(call(&mut k, SYS_MKDIR, &[MEM + 300]), Ok(0));
    assert_ne!(k.fs.resolve("/dir_44").unwrap(), NO_INO);
    assert_eq!(call(&mut k, SYS_UNLINK, &[MEM + 7]), Ok(0));
    assert_eq!(k.fs.resolve("/file_7"), Err("enoent"));
}

#[test]
fn reading_and_writing_errors() {
    let mut k = machine();
    assert_eq!(call(&mut k, SYS_READ, &[0, 0, 4]), Err("efault"));
    assert_eq!(call(&mut k, SYS_READ, &[0, 0, 0]), Ok(0));
    assert_eq!(call(&mut k, SYS_READ, &[0, KERN_BASE, 4]), Err("efault"));
    assert_eq!(call(&mut k, SYS_READ, &[0, 0x9_0000, 4]), Err("efault"));
    assert_eq!(call(&mut k, SYS_READ, &[0, MEM, 4]), Err("ebadf"));
    assert_eq!(call(&mut k, SYS_WRITE, &[0, MEM, 4]), Err("ebadf"));
    assert_eq!(call(&mut k, SYS_WRITE, &[0, 0, 4]), Err("efault"));
    let dir = k.fs.create_dir(0, "d").unwrap();
    let fd = k.open_at("/d", 0).unwrap();
    assert_eq!(call(&mut k, SYS_READ, &[fd, MEM, 4]), Err("eisdir"));
    assert_eq!(call(&mut k, SYS_WRITE, &[fd, MEM, 4]), Err("eisdir"));
    assert!(dir > 0);
    k.fs.unlink(0, "d").unwrap();
    assert_eq!(call(&mut k, SYS_READ, &[fd, MEM, 4]), Err("enoent"));
}

#[test]
fn pipe_descriptors_come_in_both_halves() {
    let mut k = machine();
    let r = call(&mut k, SYS_PIPE, &[MEM]).unwrap();
    assert_eq!((r & 0xffff_ffff, r >> 32), (0, 1));
    assert_eq!(call(&mut k, SYS_PIPE, &[0]), Err("efault"));
    assert_eq!(call(&mut k, SYS_PIPE, &[KERN_BASE]), Err("efault"));
    assert_eq!(call(&mut k, SYS_READ, &[0, MEM, 4]), Ok(0));
    assert_eq!(call(&mut k, SYS_WRITE, &[1, MEM, 4]), Ok(0));
    for _ in 0..126 {
        call(&mut k, SYS_PIPE, &[MEM]).unwrap();
    }
    call(&mut k, SYS_PIPE, &[MEM]).unwrap();
    assert_eq!(call(&mut k, SYS_PIPE, &[MEM]), Err("emfile"));
}

#[test]
fn descriptors_are_duplicated() {
    let mut k = machine();
    for p in ["/a", "/b", "/c"] {
        k.open_at(p, 0o100 | 2).unwrap();
    }
    assert_eq!(call(&mut k, SYS_CLOSE, &[0]), Ok(0));
    assert_eq!(call(&mut k, SYS_DUP, &[2]), Ok(0));
    assert_eq!(call(&mut k, SYS_DUP, &[50]), Err("ebadf"));
    assert_eq!(call(&mut k, SYS_DUP, &[1024]), Err("ebadf"));
    assert_eq!(call(&mut k, SYS_DUP2, &[1, 9]), Ok(9));
    assert_eq!(call(&mut k, SYS_DUP2, &[9, 9]), Ok(9));
    assert_eq!(call(&mut k, SYS_DUP2, &[77, 9]), Err("ebadf"));
    assert!(k.tasks.arena[0].get_file(9).is_none());
    assert_eq!(call(&mut k, SYS_DUP2, &[1024, 1]), Err("ebadf"));
    k.set_cur(0, None);
    assert_eq!(call(&mut k, SYS_DUP, &[1]), Err("esrch"));
    assert_eq!(call(&mut k, SYS_DUP2, &[1, 2]), Ok(2));
    assert_eq!(call(&mut k, SYS_CLOSE, &[1]), Err("esrch"));
}

#[test]
fn duplicate_stands_at_the_same_place() {
    let mut k = machine();
    let fd = k.open_at("/a", 0o100 | 2).unwrap();
    put(&mut k, MEM, b"abcdef");
    call(&mut k, SYS_WRITE, &[fd, MEM, 6]).unwrap();
    let g = k.open_at("/a", 0).unwrap();
    let h = call(&mut k, SYS_DUP, &[g]).unwrap();
    assert_eq!(call(&mut k, SYS_READ, &[g, MEM + 100, 2]), Ok(2));
    assert_eq!(call(&mut k, SYS_READ, &[h, MEM + 100, 2]), Ok(2));
    assert_eq!(get(&k, MEM + 100, 2), b"cd".to_vec());
}

#[test]
fn stat_and_exec_check_memory() {
    let mut k = machine();
    assert_eq!(call(&mut k, SYS_STAT, &[MEM, MEM + 512]), Ok(0));
    assert_eq!(call(&mut k, SYS_STAT, &[MEM, 0]), Err("efault"));
    assert_eq!(call(&mut k, SYS_STAT, &[KERN_BASE, MEM]), Err("efault"));
    assert_eq!(call(&mut k, SYS_FSTAT, &[0, MEM]), Ok(0));
    assert_eq!(call(&mut k, SYS_FSTAT, &[0, 0x9_0000]), Err("efault"));
    assert_eq!(call(&mut k, SYS_EXEC, &[MEM, 0, 0]), Ok(0));
    assert_eq!(call(&mut k, SYS_EXEC, &[MEM, MEM, KERN_BASE]), Err("efault"));
    assert_eq!(call(&mut k, SYS_EXEC, &[0, 0, 0]), Err("efault"));
}

#[test]
fn mappings_find_a_place() {
    let mut k = machine();
    assert_eq!(call(&mut k, SYS_MMAP, &[0, 0, 3, 0x20, 0, 0]), Err("einval"));
    assert_eq!(call(&mut k, SYS_MMAP, &[0x5000, 4096, 3, 0x30, 0, 0]), Ok(0x5000));
    assert_eq!(call(&mut k, SYS_MMAP, &[0x5000, 4096, 3, 0x20, 2, 0]), Ok(MMAP_START + 2 * PAGE_SZ));
    assert_eq!(call(&mut k, SYS_MMAP, &[0x5000, 4096, 3, 0x10, 0, 8192]), Err("einval"));
    assert_eq!(call(&mut k, SYS_MMAP, &[0x5000, 65533 * PAGE_SZ, 3, 0x30, 0, 0]), Err("enomem"));
    assert_eq!(call(&mut k, SYS_MUNMAP, &[0x5000, 4096]), Ok(0));
    assert_eq!(call(&mut k, SYS_MUNMAP, &[0x5001, 4096]), Err("einval"));
}

#[test]
fn data_segment_grows_by_frames() {
    let mut k = machine();
    let free = k.pool.free_count();
    assert_eq!(call(&mut k, SYS_BRK, &[0]), Ok(0x40_0000));
    assert_eq!(call(&mut k, SYS_BRK, &[KERN_BASE]), Err("enomem"));
    assert_eq!(call(&mut k, SYS_BRK, &[5000]), Ok(8192));
    assert_eq!(k.pool.free_count(), free - 2);
    assert_eq!(call(&mut k, SYS_BRK, &[100]), Ok(4096));
    assert_eq!(k.tasks.arena[0].vm_token, 4096);
    assert_eq!(k.pool.free_count(), free - 2);
    assert_eq!(call(&mut k, SYS_BRK, &[65536 * PAGE_SZ]), Err("enomem"));
}

#[test]
fn device_commands() {
    let mut k = machine();
    assert_eq!(call(&mut k, SYS_IOCTL, &[0, TCGETS, MEM]), Ok(0));
    assert_eq!(call(&mut k, SYS_IOCTL, &[0, TIOCGWINSZ, KERN_BASE]), Err("efault"));
    assert_eq!(call(&mut k, SYS_IOCTL, &[0, FIONCLEX, 0]), Ok(0));
    assert_eq!(call(&mut k, SYS_IOCTL, &[0, FIONBIO, 0x9_0000]), Err("efault"));
    assert_eq!(call(&mut k, SYS_IOCTL, &[0, 1, 0]), Err("enotty"));
}

#[test]
fn descriptor_control() {
    let mut k = machine();
    assert_eq!(call(&mut k, SYS_FCNTL, &[1024, F_GETFD, 0]), Err("ebadf"));
    assert_eq!(call(&mut k, SYS_FCNTL, &[3, F_DUPFD, 10]), Ok(10));
    k.schedule_tick(0);
    assert_eq!(call(&mut k, SYS_FCNTL, &[3, F_DUPFD, 1]), Ok(4));
    assert_eq!(call(&mut k, SYS_FCNTL, &[3, F_DUPFD_CLOEXEC, 10]), Ok(11));
    assert_eq!(call(&mut k, SYS_FCNTL, &[3, F_GETFD, 0]), Ok(0));
    k.cache.put(3, vec![1u8; 512]);
    assert_eq!(call(&mut k, SYS_FCNTL, &[3, F_GETFD, 0]), Ok(FD_CLOEXEC));
    assert_eq!(call(&mut k, SYS_FCNTL, &[3, F_SETFD, 1]), Ok(0));
    assert_eq!(call(&mut k, SYS_FCNTL, &[2, F_GETFL, 0]), Ok(O_NONBLOCK | O_APPEND));
    assert_eq!(call(&mut k, SYS_FCNTL, &[3, F_GETFL, 0]), Ok(O_NONBLOCK));
    assert_eq!(call(&mut k, SYS_FCNTL, &[3, F_SETFL, O_APPEND]), Ok(0));
    assert_eq!(call(&mut k, SYS_FCNTL, &[3, F_SETFL, 1]), Err("einval"));
    assert_eq!(call(&mut k, SYS_FCNTL, &[3, F_GETLK, MEM]), Ok(0));
    assert_eq!(call(&mut k, SYS_FCNTL, &[3, F_SETLK, KERN_BASE]), Err("efault"));
    assert_eq!(call(&mut k, SYS_FCNTL, &[3, 99, 0]), Err("einval"));
}

#[test]
fn numbers_and_groups() {
    let mut k = machine();
    assert_eq!(call(&mut k, SYS_GETPID, &[]), Ok(1));
    assert_eq!(call(&mut k, SYS_GETPPID, &[]), Ok(0));
    assert_eq!(k.do_fork(1), Ok(2));
    assert_eq!(call(&mut k, SYS_SETPGID, &[2, 7]), Ok(0));
    assert_eq!(call(&mut k, SYS_GETPGID, &[2]), Ok(7));
    assert_eq!(call(&mut k, SYS_SETPGID, &[0, 0]), Ok(0));
    assert_eq!(call(&mut k, SYS_GETPGID, &[0]), Ok(1));
    assert_eq!(call(&mut k, SYS_SETPGID, &[55, 7]), Err("esrch"));
    assert_eq!(call(&mut k, SYS_SETSID, &[]), Err("eperm"));
    k.set_cur(0, Some(1));
    assert_eq!(call(&mut k, SYS_GETPPID, &[]), Ok(1));
    assert_eq!(call(&mut k, SYS_SETPGID, &[1, 7]), Err("esrch"));
    assert_eq!(call(&mut k, SYS_SETSID, &[]), Ok(2));
    assert_eq!(call(&mut k, SYS_SETSID, &[]), Err("eperm"));
    assert_eq!(call(&mut k, SYS_GETPGID, &[99]), Err("esrch"));
    k.set_cur(0, None);
    assert_eq!(call(&mut k, SYS_GETPID, &[]), Ok(1));
    assert_eq!(call(&mut k, SYS_GETPGID, &[0]), Err("esrch"));
    assert_eq!(call(&mut k, SYS_SETSID, &[]), Err("esrch"));
    k.tasks.arena[0].pgid = -1;
    assert_eq!(call(&mut k, SYS_GETPGID, &[1]), Ok(u64::MAX));
}

#[test]
fn fork_takes_a_number() {
    let mut k = machine();
    assert_eq!(call(&mut k, SYS_FORK, &[]), Ok(2));
    assert_eq!(call(&mut k, SYS_FORK, &[]), Ok(3));
    assert_eq!(k.tasks.count(), 1);
    let mut small = Kernel::new(100);
    assert_eq!(call(&mut small, SYS_FORK, &[]), Err("enomem"));
    assert_eq!(small.tasks.seq, 2);
}

#[test]
fn exit_tells_the_parent_and_hands_children_over() {
    let mut k = machine();
    k.do_fork(1).unwrap();
    k.do_fork(2).unwrap();
    k.set_cur(0, Some(1));
    assert_eq!(call(&mut k, SYS_EXIT, &[9]), Ok(0));
    assert_eq!(k.tasks.arena[0].sig_queue, vec![(SIGCHLD as i32, 2)]);
    assert_eq!(k.tasks.arena[2].parent, Some(0));
    assert_eq!(k.tasks.arena[0].subtasks, vec![1, 2]);
    assert_eq!(k.tasks.arena[1].exit_code, 9);
    k.set_cur(0, None);
    assert_eq!(call(&mut k, SYS_EXIT, &[9]), Ok(0));
}

#[test]
fn waiting_looks_for_the_right_task() {
    let mut k = machine();
    let any = u64::MAX;
    k.do_fork(1).unwrap();
    k.do_fork(1).unwrap();
    k.tasks.arena[2].pgid = 5;
    assert_eq!(call(&mut k, SYS_WAIT4, &[any, 0, 0]), Err("echild"));
    assert_eq!(call(&mut k, SYS_WAIT4, &[any, 0, 1]), Ok(0));
    assert_eq!(call(&mut k, SYS_WAIT4, &[any, KERN_BASE, 1]), Err("efault"));
    assert_eq!(call(&mut k, SYS_WAIT4, &[any, MEM, 1, 0x9_0000]), Err("efault"));
    k.set_cur(0, Some(2));
    call(&mut k, SYS_EXIT, &[0]).unwrap();
    k.set_cur(0, Some(0));
    assert_eq!(call(&mut k, SYS_WAIT4, &[any, MEM, 0, MEM]), Ok(3));
    assert_eq!(call(&mut k, SYS_WAIT4, &[3, 0, 0]), Ok(3));
    assert_eq!(call(&mut k, SYS_WAIT4, &[2, 0, 0]), Err("echild"));
    assert_eq!(call(&mut k, SYS_WAIT4, &[2, 0, 1]), Ok(0));
    assert_eq!(call(&mut k, SYS_WAIT4, &[99, 0, 1]), Err("echild"));
    assert_eq!(call(&mut k, SYS_WAIT4, &[0, 0, 1]), Ok(0));
    assert_eq!(call(&mut k, SYS_WAIT4, &[(-5i64) as u64, 0, 0]), Ok(3));
    assert_eq!(call(&mut k, SYS_WAIT4, &[(-6i64) as u64, 0, 1]), Err("echild"));
    k.tasks.arena[0].pgid = 5;
    assert_eq!(call(&mut k, SYS_WAIT4, &[0, 0, 0]), Ok(3));
}

#[test]
fn signals_are_sent() {
    let mut k = machine();
    k.do_fork(1).unwrap();
    k.do_fork(1).unwrap();
    let usr = SIGUSR1 as u64;
    assert_eq!(call(&mut k, SYS_KILL, &[2, 65]), Err("einval"));
    assert_eq!(call(&mut k, SYS_KILL, &[1, SIGKILL as u64]), Err("eperm"));
    assert_eq!(call(&mut k, SYS_KILL, &[u64::MAX, SIGSTOP as u64]), Err("eperm"));
    assert_eq!(call(&mut k, SYS_KILL, &[2, usr]), Ok(0));
    assert_eq!(k.tasks.arena[1].sig_queue, vec![(usr as i32, -1)]);
    assert_eq!(k.tasks.arena[2].sig_queue, vec![]);
    assert_eq!(call(&mut k, SYS_KILL, &[99, usr]), Err("esrch"));
    assert_eq!(call(&mut k, SYS_KILL, &[u64::MAX, usr]), Ok(2));
    assert_eq!(k.tasks.arena[0].sig_queue, vec![]);
    assert_eq!(call(&mut k, SYS_KILL, &[0, usr]), Ok(3));
    k.tasks.arena[2].pgid = 8;
    assert_eq!(call(&mut k, SYS_KILL, &[(-8i64) as u64, usr]), Ok(1));
    assert_eq!(call(&mut k, SYS_KILL, &[(-9i64) as u64, usr]), Err("esrch"));
    k.set_cur(0, Some(1));
    call(&mut k, SYS_EXIT, &[0]).unwrap();
    assert_eq!(call(&mut k, SYS_KILL, &[2, usr]), Err("esrch"));
    assert_eq!(call(&mut k, SYS_KILL, &[2, 0]), Ok(0));
}

#[test]
fn masks_never_hold_kill_or_stop() {
    let mut k = machine();
    let both = (1u64 << SIGKILL) | (1u64 << SIGSTOP);
    k.tasks.arena[0]
        .addr_space
        .vm_map
        .insert(VmRegion::new(0x8_0000, 0x1000, VM_READ | VM_WRITE))
        .unwrap();
    assert_eq!(call(&mut k, SYS_SIGPROCMASK, &[2, 0x8_0200 & !7, 0]), Ok(0));
    assert_eq!(k.tasks.arena[0].sig_mask, 0x8_0200 & !both);
    assert_eq!(call(&mut k, SYS_SIGPROCMASK, &[0, MEM, 0]), Ok(0));
    assert_eq!(k.tasks.arena[0].sig_mask, MEM & !both);
    assert_eq!(call(&mut k, SYS_SIGPROCMASK, &[1, MEM, MEM]), Ok(0));
    assert_eq!(k.tasks.arena[0].sig_mask, 0);
    assert_eq!(call(&mut k, SYS_SIGPROCMASK, &[7, MEM, 0]), Err("einval"));
    assert_eq!(call(&mut k, SYS_SIGPROCMASK, &[7, 0, 0]), Ok(0));
    assert_eq!(call(&mut k, SYS_SIGPROCMASK, &[0, KERN_BASE, 0]), Err("efault"));
    assert_eq!(call(&mut k, SYS_SIGACTION, &[SIGUSR1 as u64, MEM, MEM]), Ok(0));
    assert_eq!(call(&mut k, SYS_SIGACTION, &[SIGKILL as u64, MEM, 0]), Err("einval"));
    assert_eq!(call(&mut k, SYS_SIGACTION, &[64, 0, 0]), Err("einval"));
    assert_eq!(call(&mut k, SYS_SIGACTION, &[5, KERN_BASE, 0]), Err("efault"));
}

#[test]
fn epoll_and_clock_calls() {
    let mut k = machine();
    assert_eq!(call(&mut k, SYS_EPOLL_CREATE, &[0]), Err("einval"));
    assert_eq!(call(&mut k, SYS_EPOLL_CREATE, &[62]), Ok(4));
    assert_eq!(call(&mut k, SYS_EPOLL_CREATE, &[u64::MAX]), Err("enomem"));
    assert_eq!(call(&mut k, SYS_EPOLL_CTL, &[3, 1, 0, MEM]), Ok(0));
    assert_eq!(call(&mut k, SYS_EPOLL_CTL, &[3, 1, 0, 0]), Err("efault"));
    assert_eq!(call(&mut k, SYS_EPOLL_CTL, &[3, 2, 0, 0]), Ok(0));
    assert_eq!(call(&mut k, SYS_EPOLL_CTL, &[3, 9, 0, MEM]), Err("einval"));
    assert_eq!(call(&mut k, SYS_EPOLL_WAIT, &[3, MEM, 4, 10]), Ok(0));
    assert_eq!(call(&mut k, SYS_EPOLL_WAIT, &[3, MEM, 0, 10]), Err("einval"));
    assert_eq!(call(&mut k, SYS_EPOLL_WAIT, &[3, MEM, u64::MAX, 10]), Err("einval"));
    assert_eq!(call(&mut k, SYS_EPOLL_WAIT, &[3, KERN_BASE, 4, 10]), Err("efault"));
    assert_eq!(call(&mut k, SYS_CLOCK_GETTIME, &[1, MEM]), Ok(0));
    assert_eq!(call(&mut k, SYS_CLOCK_GETTIME, &[2, MEM]), Err("einval"));
    assert_eq!(call(&mut k, SYS_CLOCK_GETTIME, &[1, 0]), Err("efault"));
}

#[test]
fn futex_calls() {
    let mut k = machine();
    k.do_fork(1).unwrap();
    assert_eq!(call(&mut k, SYS_FUTEX, &[KERN_BASE, 0]), Err("efault"));
    assert_eq!(call(&mut k, SYS_FUTEX, &[MEM, 0, 1, 0]), Ok(0));
    assert_eq!(call(&mut k, SYS_FUTEX, &[MEM, 0, 1, KERN_BASE]), Err("efault"));
    assert_eq!(call(&mut k, SYS_FUTEX, &[MEM, 1, 0]), Ok(1));
    assert_eq!(call(&mut k, SYS_FUTEX, &[MEM, 1, 50]), Ok(2));
    assert_eq!(call(&mut k, SYS_FUTEX, &[MEM, 3, 5, 0, MEM, 6]), Ok(11));
    assert_eq!(call(&mut k, SYS_FUTEX, &[MEM, 3, 500, 0, MEM, 6]), Ok(128));
    assert_eq!(call(&mut k, SYS_FUTEX, &[MEM, 3, 5, 0, 0x9_0000, 6]), Err("efault"));
    assert_eq!(call(&mut k, SYS_FUTEX, &[MEM, 5, 5, 0]), Err("efault"));
    assert_eq!(call(&mut k, SYS_FUTEX, &[MEM, 5, 5, MEM]), Ok(0));
    assert_eq!(call(&mut k, SYS_FUTEX, &[MEM, 9, 50, 0, MEM, 3]), Ok(35));
    assert_eq!(call(&mut k, SYS_FUTEX, &[MEM, 0x80 + 7, 0]), Err("enosys"));
}

#[test]
fn fault_stops_at_the_first_bad_page() {
    let mut k = machine();
    let free = k.pool.free_count();
    assert_eq!(call(&mut k, SYS_FSTAT, &[0, MEM + 0x1_0000 - 8]), Err("efault"));
    assert_eq!(k.pool.free_count(), free - 1);
    assert_eq!(call(&mut k, SYS_FSTAT, &[0, 0x20_0000]), Err("efault"));
    assert_eq!(k.pool.free_count(), free - 1);
}

#[test]
fn broken_disk_reaches_the_caller() {
    let mut k = machine();
    put(&mut k, MEM, b"/notes\0");
    let fd = call(&mut k, SYS_OPEN, &[MEM, 0o100 | 2]).unwrap();
    k.disk.set_errs(u64::MAX);
    assert_eq!(call(&mut k, SYS_WRITE, &[fd, MEM, 10]), Err("io_error"));
    k.disk.set_errs(0);
    assert_eq!(call(&mut k, SYS_WRITE, &[fd, MEM, 7]), Ok(7));
    let back = call(&mut k, SYS_OPEN, &[MEM, 0]).unwrap();
    assert_eq!(call(&mut k, SYS_READ, &[back, MEM + 512, 7]), Ok(7));
    assert_eq!(get(&k, MEM + 512, 7), b"/notes\0".to_vec());
}
