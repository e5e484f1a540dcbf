use kernel::{
    FHandle, FLike, FdOpt, FileHeap, OrdMap, Pid, ProcInit, ProcessGroup, SemHeap, ShmHeap, Task,
    TaskTable, SIGUSR1,
};

fn opt() -> FdOpt {
    FdOpt { rd: true, wr: true, ap: false, nb: false }
}

#[test]
fn tasks_are_numbered_from_one() {
    let mut t = TaskTable::new();
    let a = t.spawn_root();
    let b = t.spawn("worker");
    assert_eq!(t.arena[a].id(), 1);
    assert_eq!(t.arena[b].id(), 2);
    assert_eq!(t.find(2), Some(b));
    assert_eq!(t.find(9), None);
    assert_eq!(t.find_by_tag("worker"), vec![b]);
    assert_eq!(t.count(), 2);
    assert_eq!(t.active_tasks(), vec![1, 2]);
}

#[test]
fn lowest_descriptor_is_taken() {
    let mut heap = FileHeap::new();
    let mut t = Task::make(1, "t");
    for i in 0..3 {
        let f = FHandle::new(&mut heap, "/x", opt(), false, false);
        assert_eq!(t.add_file(FLike::File(f)), i);
    }
    assert_eq!(t.close_fd(&mut heap, 1), Ok(()));
    assert_eq!(t.close_fd(&mut heap, 1), Err("ebadf"));
    assert_eq!(t.dup_fd(2, true), Ok(1));
    assert_eq!(t.dup_fd(77, true), Err("ebadf"));
    assert_eq!(t.get_free_fd_from(10), 10);
    assert_eq!(t.dup2_fd(&mut heap, 0, 10), Ok(10));
    assert_eq!(t.fd_count(), 4);
    assert_eq!(t.set_cloexec(0, true), Ok(()));
    assert_eq!(t.set_cloexec(55, true), Err("ebadf"));
}

#[test]
fn forked_child_inherits() {
    let mut tasks = TaskTable::new();
    let mut heap = FileHeap::new();
    let mut sems = SemHeap::new();
    let mut shms = ShmHeap::new();
    let r = tasks.spawn_root();
    let f = FHandle::new(&mut heap, "/x", opt(), false, true);
    tasks.arena[r].add_file(FLike::File(f));
    tasks.arena[r].cwd = "/home".to_string();
    tasks.arena[r].pgid = 4;
    let mut cx = tasks.arena[r].begin_run();
    cx.uctx.ip = 0x40_1234;
    cx.clear_tid = 9;
    tasks.arena[r].end_run(cx);
    let c = tasks.fork_task(r, &mut sems, &mut shms);
    let copy = tasks.arena[c].thd_ctx.unwrap();
    assert_eq!((copy.uctx.ip, copy.clear_tid), (0x40_1234, 9));
    assert_eq!(tasks.arena[c].cwd, "/home");
    assert_eq!(tasks.arena[c].pgid, 4);
    assert_eq!(tasks.arena[c].parent, Some(r));
    assert_eq!(tasks.arena[r].subtasks, vec![c]);
    assert_eq!(tasks.arena[c].fd_count(), 1);
    assert_eq!(tasks.pgid_group(4), vec![r, c]);
}

#[test]
fn exit_leaves_a_zombie_and_reaping_reparents() {
    let mut tasks = TaskTable::new();
    let mut heap = FileHeap::new();
    let mut sems = SemHeap::new();
    let mut shms = ShmHeap::new();
    let r = tasks.spawn_root();
    let c = tasks.fork_task(r, &mut sems, &mut shms);
    let g = tasks.fork_task(c, &mut sems, &mut shms);
    Task::exit_proc(&mut tasks, &mut heap, c, 259);
    assert!(tasks.arena[c].done());
    assert_eq!(tasks.arena[c].exit_code, 259);
    assert_eq!(tasks.arena[c].info.status, Some(3));
    assert_eq!(tasks.zombie_tasks(), vec![2]);
    tasks.reap(2);
    assert_eq!(tasks.arena[g].parent, Some(r));
    assert!(tasks.arena[r].subtasks.contains(&g));
    assert_eq!(tasks.find(2), None);
    assert!(tasks.terminate_and_collect(&mut heap, 3, 0));
    assert!(!tasks.terminate_and_collect(&mut heap, 3, 0));
}

#[test]
fn signals_wait_until_unblocked() {
    let mut tasks = TaskTable::new();
    let a = tasks.spawn_root();
    assert!(!tasks.arena[a].has_sig());
    tasks.arena[a].sig_mask = 1 << SIGUSR1;
    tasks.signal_one(a, SIGUSR1 as i32, -1);
    assert!(!tasks.arena[a].has_sig());
    tasks.arena[a].sig_mask = 0;
    assert!(tasks.arena[a].has_sig());
    assert_eq!(tasks.send_signal_group(0, 5), 1);
}

#[test]
fn group_leader_is_spared() {
    let mut tasks = TaskTable::new();
    let a = tasks.spawn("lead");
    let b = tasks.spawn("member");
    let mut g = ProcessGroup::new(1, 1, 1);
    g.add_member(2);
    assert_eq!(g.member_count(), 2);
    assert!(g.is_leader(1));
    g.broadcast_signal(5, &mut tasks);
    assert_eq!(tasks.arena[a].sig_queue.len(), 0);
    assert_eq!(tasks.arena[b].sig_queue.len(), 1);
    assert!(g.remove_member(2));
    assert!(!g.remove_member(2));
    g.set_foreground(true);
    assert!(g.is_foreground());
}

#[test]
fn threads_belong_to_their_process() {
    let mut tasks = TaskTable::new();
    let r = tasks.spawn_root();
    let th = tasks.clone_thread(r, 0x7000, 0x9000, 0x10);
    assert_eq!(tasks.arena[th].thd_ctx.unwrap().clear_tid, 0x10);
    tasks.register(r, Pid(40));
    assert_eq!(tasks.find(40), Some(r));
    assert!(Pid(1).is_init());
    assert_eq!(Pid::new().get(), 0);
}

#[test]
fn user_task_has_a_terminal_and_a_stack() {
    let mut tasks = TaskTable::new();
    let mut heap = FileHeap::new();
    let t = tasks.new_user_task(&mut heap, "/bin/sh", vec!["sh".to_string()], vec![]);
    assert_eq!(tasks.arena[t].fd_count(), 3);
    assert_eq!(tasks.arena[t].exec_path, "/bin/sh");
    assert!(heap.descs[0].opt.rd);
    assert!(heap.descs[1].opt.wr);
}

#[test]
fn stack_pointer_is_aligned_and_exact() {
    let init = ProcInit {
        args: vec!["prog".to_string(), "x".to_string()],
        envs: vec!["A=1".to_string()],
        auxv: OrdMap::new(),
    };
    let top: u64 = 0x1_0000;
    let texts = 5 + 4 + 5 + 2;
    let words = (2 + 2 + 3 + 1) * 8;
    assert_eq!(init.push_at(top), (top - texts - words) / 16 * 16);
    assert_eq!(init.total_size(), 5 + 2 + 4 + words);
}
