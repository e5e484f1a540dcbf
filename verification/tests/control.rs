use kernel::{
    build_pseudo_header, compute_inet_checksum, compute_load_balance, parse_ipv4_header,
    tcp_checksum, validate_elf_header, CapSet, Context, MountTable, ResourceLimits, RunQueue,
    SchedulePolicy, SigAction, SigSet, TimerEntry, TimerWheel, TrapCtl, CAP_CHOWN, CAP_KILL,
    KHEAP_SZ, N_REGS, SIGKILL, SIGSTOP, SIGUSR1, SIG_DFL, SIG_IGN, TIMER_WHEEL_SIZE, USR_STK_SZ,
};

#[test]
fn idle_cpu_is_preferred() {
    assert_eq!(compute_load_balance(&[3, 0, 2], &[0, 0, 0], &[false, false, false]), 1);
    assert_eq!(compute_load_balance(&[], &[], &[]), 0);
    assert_eq!(compute_load_balance(&[1, 1], &[0, 0], &[true, false]), 1);
}

#[test]
fn best_waiting_task_runs_first() {
    let mut q = RunQueue::new();
    q.enqueue(1, SchedulePolicy::with_prio(12));
    q.enqueue(2, SchedulePolicy::with_prio(3));
    q.enqueue(3, SchedulePolicy::with_prio(7));
    let order: Vec<u64> = q.queue.iter().map(|w| w.0).collect();
    assert_eq!(order, vec![2, 3, 1]);
    assert_eq!(q.pick_next(), Some(2));
    assert_eq!(q.dequeue().map(|w| w.0), Some(2));
    q.boost_priority(1, 10);
    assert_eq!(q.dequeue().map(|w| w.0), Some(1));
    assert!(q.remove(3));
    assert!(!q.remove(3));
    assert_eq!(q.dequeue().map(|w| w.0), None);
    assert_eq!(q.pick_next(), None);
}

#[test]
fn named_task_is_the_one_taken() {
    let mut early = SchedulePolicy::new();
    early.prio = 0;
    early.vruntime = 500;
    let mut late = SchedulePolicy::new();
    late.prio = 1;
    let mut heavy = SchedulePolicy::new();
    heavy.prio = 0;
    heavy.nice = -11;
    heavy.vruntime = 600;
    let mut q = RunQueue::new();
    q.enqueue(1, early);
    q.enqueue(2, late);
    assert_eq!(q.pick_next(), Some(1));
    q.enqueue(3, heavy);
    for expected in [3, 1, 2] {
        let before: Vec<u64> = q.queue.iter().map(|w| w.0).collect();
        assert_eq!(q.pick_next(), Some(expected));
        let after: Vec<u64> = q.queue.iter().map(|w| w.0).collect();
        assert_eq!(before, after);
        assert_eq!(q.dequeue().map(|w| w.0), Some(expected));
    }
    assert_eq!(q.pick_next(), None);
}

#[test]
fn extreme_run_times_are_ordered() {
    let mut late = SchedulePolicy::new();
    late.prio = 1;
    late.vruntime = i64::MAX as u64;
    let mut wrapped = SchedulePolicy::new();
    wrapped.vruntime = i64::MAX as u64 + 1;
    let mut q = RunQueue::new();
    q.enqueue(1, late);
    q.enqueue(2, SchedulePolicy::new());
    q.enqueue(3, wrapped);
    assert_eq!(q.queue.iter().map(|w| w.0).collect::<Vec<u64>>(), vec![3, 2, 1]);
    assert_eq!(q.pick_next(), Some(3));
    assert_eq!(q.dequeue().map(|w| w.0), Some(3));
    assert_eq!(q.dequeue().map(|w| w.0), Some(2));
    assert_eq!(q.pick_next(), Some(1));
}

#[test]
fn run_times_grow_by_weight() {
    let mut q = RunQueue::new();
    q.enqueue(1, SchedulePolicy::new());
    q.enqueue(2, SchedulePolicy::with_prio(5));
    q.update_vruntime(1, 3);
    q.update_vruntime(9, 3);
    q.rebalance(10);
    let times: Vec<(u64, u64)> = q.queue.iter().map(|w| (w.0, w.1.vruntime)).collect();
    assert_eq!(times, vec![(1, 13), (2, 10 * 1024 / 335)]);
    let a = SchedulePolicy::with_prio(1);
    let b = SchedulePolicy::with_prio(2);
    assert_eq!(RunQueue::cmp_priority(&a, &b), std::cmp::Ordering::Less);
    assert_eq!(RunQueue::cmp_priority(&b, &b), std::cmp::Ordering::Equal);
    assert_eq!(SchedulePolicy::new().weight(), 1024);
}

#[test]
fn preemption_nests() {
    let mut q = RunQueue::new();
    assert!(q.preemptible());
    q.preempt_disable();
    q.preempt_disable();
    q.preempt_enable();
    assert!(!q.preemptible());
    q.preempt_enable();
    assert!(q.preemptible());
}

#[test]
fn current_task_can_yield() {
    let mut q = RunQueue::new();
    assert!(!q.yield_current());
    q.set_current(4);
    q.enqueue(5, SchedulePolicy::new());
    assert!(q.yield_current());
    assert_eq!(q.current, None);
    assert_eq!(q.queue.iter().map(|w| w.0).collect::<Vec<_>>(), vec![5, 4]);
    q.set_current(6);
    q.clear_current();
    assert_eq!(q.current, None);
}

#[test]
fn longest_mount_wins() {
    let mut m = MountTable::new();
    m.bind("/mnt", "/dev/a");
    m.bind("/mnt/usb", "/dev/b");
    assert_eq!(m.mount_count(), 2);
    assert_eq!(m.find_mount("/mnt/usb/x").map(|e| e.target), Some("/dev/b".to_string()));
    assert_eq!(m.resolve("/mnt/usb/x").unwrap(), "/dev/b:/x");
    assert_eq!(m.resolve("/mnt/y").unwrap(), "/dev/a:/y");
    assert_eq!(m.resolve("/other//z").unwrap(), "/other/z");
    assert_eq!(m.resolve("/other/z").unwrap(), "/other/z");
    assert!(m.has_prefix("/mnt"));
    assert!(m.unmount("/mnt/usb"));
    assert!(!m.unmount("/mnt/usb"));
    assert_eq!(m.list_mounts(), vec![("/mnt".to_string(), "/dev/a".to_string())]);
}

#[test]
fn contexts_compare_register_by_register() {
    let mut regs = [0u64; N_REGS];
    regs[3] = 7;
    let a = Context::capture(&regs);
    let mut b = a;
    assert_eq!(a.diff(&b), Vec::new());
    b.set_ret(9);
    b.set_ip(0x400000);
    assert_eq!(a.diff(&b)[0], (0, 0, 9));
    let c = a.clone_with_ret(9);
    assert_eq!(c.apply()[0], 9);
    assert_eq!(c.apply()[3], 7);
    assert_eq!(a.hash(), Context::capture(&regs).hash());
}

#[test]
fn elf_headers_are_checked() {
    let mut h = vec![0u8; 120];
    h[..4].copy_from_slice(&[0x7f, b'E', b'L', b'F']);
    h[4] = 2;
    h[5] = 1;
    h[6] = 1;
    h[16] = 2;
    h[18] = 0x3e;
    h[20] = 1;
    h[24] = 0x00;
    h[25] = 0x10;
    h[26] = 0x40;
    h[32] = 64;
    h[52] = 64;
    h[54] = 56;
    h[56] = 1;
    h[64] = 1;
    assert_eq!(validate_elf_header(&h), Ok(0x401000));
    h[64] = 2;
    assert_eq!(validate_elf_header(&h), Err("no_load"));
    h[4] = 1;
    assert!(validate_elf_header(&h).is_err());
    assert!(validate_elf_header(&h[..20]).is_err());
}

#[test]
fn checksum_over_data_with_its_checksum_is_zero() {
    let data = [0x45u8, 0x00, 0x00, 0x1c, 0x12, 0x34];
    let c = compute_inet_checksum(&data);
    let mut all = data.to_vec();
    all.push((c >> 8) as u8);
    all.push((c & 0xff) as u8);
    assert_eq!(compute_inet_checksum(&all), 0);
    assert_eq!(compute_inet_checksum(&[0x00, 0x01, 0xf2, 0x03, 0xf4, 0xf5, 0xf6, 0xf7]), !0xddf2u16);
}

#[test]
fn headers_are_taken_apart_and_built() {
    let mut p = vec![0u8; 20];
    p[0] = 0x45;
    p[3] = 20;
    p[9] = 6;
    p[12..16].copy_from_slice(&[10, 0, 0, 1]);
    p[16..20].copy_from_slice(&[10, 0, 0, 2]);
    assert_eq!(parse_ipv4_header(&p), Some((0x0a000001, 0x0a000002, 6, 20)));
    assert_eq!(parse_ipv4_header(&p[..19]), None);
    assert_eq!(
        build_pseudo_header(0x0a000001, 0x0a000002, 6, 8),
        vec![10, 0, 0, 1, 10, 0, 0, 2, 0, 6, 0, 8]
    );
    let mut whole = build_pseudo_header(0x0a000001, 0x0a000002, 6, 4);
    whole.extend_from_slice(&[1, 2, 3, 4]);
    assert_eq!(tcp_checksum(0x0a000001, 0x0a000002, &[1, 2, 3, 4]), compute_inet_checksum(&whole));
}

#[test]
fn traps_are_dispatched_by_class() {
    let mut t = TrapCtl::new();
    t.configure(0b1, 0b10);
    assert_eq!((t.sw(), t.hw()), (0b1, 0b10));
    let mut c = Context::new();
    c.set_ip(77);
    t.dispatch_vector(0, c);
    assert!(t.current().is_none());
    t.dispatch_vector(1, c);
    assert_eq!(t.current().unwrap().ip, 77);
    let mut d = Context::new();
    d.set_ip(88);
    t.dispatch_vector(9, d);
    assert_eq!(t.current().unwrap().ip, 77);
    t.dispatch_vector(8, d);
    assert_eq!(t.current().unwrap().ip, 88);
    t.dispatch_vector(14, c);
    assert_eq!(t.current().unwrap().ip, 77);
    t.dispatch_vector(40, d);
    assert_eq!(t.current().unwrap().ip, 77);
    assert!(t.on_pgfault(0x1000).is_ok());
    assert!(!t.in_handler());
}

#[test]
fn frames_are_popped_in_reverse() {
    let mut t = TrapCtl::new();
    let mut c = Context::new();
    c.set_ip(1);
    t.push_frame(&c);
    c.set_ip(2);
    t.push_frame(&c);
    assert_eq!(t.pop_frame().unwrap().ip, 2);
    assert_eq!(t.pop_frame().unwrap().ip, 1);
    assert!(t.pop_frame().is_none());
}

#[test]
fn limits_are_kept() {
    let mut l = ResourceLimits::default_limits();
    assert_eq!(l.get_limit(7), Ok(1024));
    assert_eq!(l.get_limit(3), Ok(USR_STK_SZ * 4));
    assert_eq!(l.get_limit(2), Ok(KHEAP_SZ));
    assert_eq!(l.get_limit(5), Err("einval"));
    assert_eq!(l.set_limit(7, 3), Ok(()));
    assert_eq!(l.set_limit(99, 3), Err("einval"));
    assert!(l.check_fd(2));
    assert!(!l.check_fd(3));
    assert!(l.exceeds_any(4, 0, 0));
    assert!(!l.exceeds_any(3, 256, 0));
    assert_eq!(l.inherit().get_limit(7), Ok(3));
}

#[test]
fn kill_and_stop_get_through() {
    let mut s = SigSet::new();
    s.sig_block(u64::MAX);
    s.sig_raise(SIGUSR1);
    assert!(s.sig_pending(SIGUSR1));
    assert_eq!(s.deliverable(), None);
    s.sig_raise(SIGKILL);
    assert_eq!(s.deliverable(), Some(SIGKILL));
    s.sig_clear(SIGKILL);
    s.sig_raise(SIGSTOP);
    assert_eq!(s.coalesce_pending(), 1 << SIGSTOP);
    s.sig_unblock(1 << SIGUSR1);
    assert_eq!(s.deliverable(), Some(SIGUSR1));
}

#[test]
fn actions_of_caught_signals_are_reset() {
    let mut s = SigSet::new();
    s.set_action(SIGUSR1, SigAction { handler: 0x1000, flags: 0, mask: 0 });
    s.set_action(SIGKILL, SigAction { handler: 0x1000, flags: 0, mask: 0 });
    assert_eq!(s.get_action(SIGUSR1).handler, 0x1000);
    assert_eq!(s.get_action(SIGKILL).handler, SIG_DFL);
    s.set_action(12, SigAction { handler: SIG_IGN, flags: 0, mask: 0 });
    assert!(s.is_ignored(12));
    s.clear_non_caught();
    assert_eq!(s.get_action(SIGUSR1).handler, SIG_DFL);
    assert!(s.is_ignored(12));
}

#[test]
fn capabilities_are_granted_and_dropped() {
    let mut c = CapSet::new();
    assert!(!c.check(CAP_KILL));
    c.grant(CAP_KILL);
    assert!(c.check(CAP_KILL));
    assert!(c.has_any(1 << CAP_KILL));
    c.drop_cap(CAP_KILL);
    assert!(!c.check(CAP_KILL));
    let f = CapSet::full();
    assert!(f.check(CAP_CHOWN));
    let k = CapSet::inherit(&c);
    assert!(!k.check(CAP_KILL));
    assert!(!c.raise_ambient(CAP_KILL));
}

#[test]
fn timers_fire_when_due() {
    let mut t = TimerEntry::new(10, 0, 1);
    assert!(!t.expired(10));
    assert!(t.expired(11));
    assert_eq!(t.remaining(4), 6);
    assert_eq!(t.remaining(40), 0);
    assert!(t.active);
    t.cancel();
    assert!(!t.active);
}

#[test]
fn wheel_comes_round() {
    let mut w = TimerWheel::new();
    w.add_timer(TimerEntry::new(3, 0, 7));
    assert_eq!(w.active_count(), 1);
    let mut fired = Vec::new();
    for now in 1..=(TIMER_WHEEL_SIZE as u64 + 4) {
        for t in w.advance(now) {
            fired.push((t.callback_id, now));
        }
    }
    assert_eq!(fired.len(), 1);
    assert_eq!(fired[0].0, 7);
    assert!(fired[0].1 >= 3);
    assert_eq!(w.active_count(), 0);
    assert!(!w.cancel(7));
}
