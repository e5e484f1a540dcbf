use kernel::{wait_ev, EvBus, EvFlag, FutexBucket, FutexTable, ParkStep, SyncQueue, WaitQueue};

#[test]
fn events_are_set_and_cleared() {
    let mut b = EvBus::make();
    assert_eq!(wait_ev(&b, EvFlag::READABLE), None);
    b.set(EvFlag::READABLE | EvFlag::CLOSED);
    assert_eq!(wait_ev(&b, EvFlag::READABLE), Some(EvFlag::READABLE | EvFlag::CLOSED));
    b.clear(EvFlag::READABLE);
    assert_eq!(wait_ev(&b, EvFlag::READABLE), None);
    b.change(EvFlag::CLOSED, EvFlag::WRITABLE);
    assert_eq!(wait_ev(&b, EvFlag::WRITABLE), Some(EvFlag::WRITABLE));
}

#[test]
fn subscribers_are_told_of_changes_only() {
    let mut b = EvBus::make();
    b.sub(5);
    b.set(EvFlag::READABLE);
    b.set(EvFlag::READABLE);
    assert_eq!(b.next_due(), Some(EvFlag::READABLE));
    assert_eq!(b.next_due(), None);
    assert_eq!(b.cb_len(), 1);
    b.retire(&[true]);
    assert_eq!(b.cb_len(), 0);
}

#[test]
fn queue_wakes_in_order() {
    let mut q = SyncQueue::new();
    assert_eq!(q.park_on(1, false), ParkStep::Park);
    assert_eq!(q.park_on(2, false), ParkStep::Park);
    assert_eq!(q.park_on(3, false), ParkStep::Park);
    assert_eq!(q.pending(), 3);
    assert_eq!(q.signal(), Some(1));
    assert_eq!(q.signal_n(1), vec![2]);
    assert_eq!(q.broadcast(), vec![3]);
    assert_eq!(q.signal(), None);
}

#[test]
fn early_signal_is_not_lost() {
    let mut q = SyncQueue::new();
    assert_eq!(q.signal(), None);
    assert_eq!(q.park_on(1, false), ParkStep::Recheck);
    assert_eq!(q.park_on(1, false), ParkStep::Park);
}

#[test]
fn satisfied_waiter_does_not_park() {
    let mut q = SyncQueue::new();
    assert_eq!(q.park_on(1, true), ParkStep::Satisfied);
    assert_eq!(q.pending(), 0);
}

#[test]
fn epoll_registrations_come_and_go() {
    let mut q = SyncQueue::new();
    q.reg_epoll(1, 2, 3);
    assert!(q.unreg_epoll(1, 2, 3));
    assert!(!q.unreg_epoll(1, 2, 3));
}

#[test]
fn futex_waits_only_for_the_expected_value() {
    let mut b = FutexBucket::new();
    assert!(b.wait(0x1000, 1, 2, 9).is_err());
    let ticket = b.wait(0x1000, 1, 1, 9).unwrap();
    assert_eq!(b.pending_at(0x1000), 1);
    assert_eq!(b.wake(0x1000, 1), vec![9]);
    assert_eq!(b.wait_done(ticket), Ok(()));
}

#[test]
fn futex_waiters_move_to_another_address() {
    let mut b = FutexBucket::new();
    for th in 1..=4 {
        b.wait(0x1000, 0, 0, th).unwrap();
    }
    assert_eq!(b.requeue(0x1000, 0x2000, 1, 2), vec![1]);
    assert_eq!(b.pending_at(0x1000), 1);
    assert_eq!(b.pending_at(0x2000), 2);
    assert_eq!(b.wake(0x2000, 10), vec![2, 3]);
    assert_eq!(b.wake(0x1000, 10), vec![4]);
}

#[test]
fn futex_table_serves_many_addresses() {
    let mut t = FutexTable::new();
    assert!(!t.ftx_wait(0x10, 1, 0, 1));
    assert!(t.ftx_wait(0x10, 1, 1, 1));
    assert!(t.ftx_wait(0x20, 1, 1, 2));
    assert!(t.ftx_wait(0x10, 1, 1, 3));
    assert_eq!(t.ftx_wake(0x10, 1), vec![1]);
    assert_eq!(t.ftx_requeue(0x10, 0x20, 0, 5), Vec::<u64>::new());
    assert_eq!(t.ftx_wake(0x20, 5), vec![2, 3]);
}

#[test]
fn wait_queue_wakes_by_key() {
    let mut q = WaitQueue::new();
    q.sleep(1, 10, 0);
    q.sleep(2, 20, 0);
    q.sleep(3, 10, 0);
    assert!(q.has_waiters_for(20));
    assert_eq!(q.wake_one(10), Some(1));
    assert_eq!(q.wake_one(99), None);
    assert_eq!(q.wake_all(10), vec![3]);
    assert_eq!(q.pending_count(), 1);
    assert_eq!(q.total_wakes(), 2);
}

#[test]
fn filtered_wake_and_order_of_priority() {
    let mut q = WaitQueue::new();
    q.sleep(1, 10, 5);
    q.sleep(2, 20, 1);
    q.sleep(3, 30, 3);
    q.reorder_by_priority();
    let flags: Vec<u32> = q.inner.iter().map(|s| s.2).collect();
    assert_eq!(flags, vec![1, 3, 5]);
    assert_eq!(q.wake_filtered(|key, _| key >= 20), vec![2, 3]);
    assert_eq!(q.pending_count(), 1);
}

#[test]
fn timed_sleep_ends_either_way() {
    let mut q = WaitQueue::new();
    q.sleep(1, 10, 0);
    q.sleep(2, 10, 0);
    assert_eq!(q.wake_one(10), Some(1));
    assert!(!q.sleep_timeout(1, 10));
    assert_eq!(q.pending_count(), 1);
    assert!(q.sleep_timeout(2, 10));
    assert_eq!(q.pending_count(), 0);
    assert!(!q.sleep_timeout(2, 10));
}
