use kernel::{FlgGuard, KernLock, Sema, Spin};

#[test]
fn lock_nests_for_its_owner() {
    let mut l = KernLock::new();
    assert!(!l.held());
    assert!(l.enter(7, 100));
    assert!(l.enter(8, 100));
    assert_eq!(l.level(), 2);
    assert_eq!(l.stack_top(), 8);
    assert!(l.leave(8));
    assert!(l.held());
    assert_eq!(l.stack_top(), 7);
    assert!(l.leave(7));
    assert!(!l.held());
    assert_eq!(l.level(), 0);
}

#[test]
fn another_thread_has_to_wait() {
    let mut l = KernLock::new();
    assert!(l.enter(1, 100));
    assert!(!l.enter(2, 200));
    assert!(!l.try_enter(2, 200));
    assert_eq!(l.level(), 1);
    assert!(l.leave(1));
    assert!(l.try_enter(2, 200));
}

#[test]
fn unpaired_leave_is_reported() {
    let mut l = KernLock::new();
    assert!(l.enter(1, 100));
    assert!(!l.leave(9));
    assert!(!l.held());
}

#[test]
fn spin_lock_has_one_holder() {
    let mut s = Spin::new();
    assert!(s.acquire());
    assert!(!s.try_acquire());
    assert!(!s.acquire());
    assert!(s.is_held());
    s.release();
    assert!(!s.is_held());
    assert!(s.try_acquire());
}

#[test]
fn flag_guard_remembers_nothing() {
    let g = FlgGuard::enter();
    let _ = g.0;
}

#[test]
fn semaphore_counts_down_and_up() {
    let mut s = Sema::new(2);
    assert_eq!(s.try_acquire(), Ok(true));
    assert_eq!(s.try_acquire(), Ok(true));
    assert_eq!(s.try_acquire(), Ok(false));
    assert_eq!(s.get_val(), 0);
    s.release();
    assert_eq!(s.get_val(), 1);
    assert_eq!(s.acquire_spin(), Ok(true));
}

#[test]
fn removed_semaphore_is_an_error() {
    let mut s = Sema::new(0);
    s.remove();
    assert!(s.try_acquire().is_err());
    assert!(s.acquire_spin().is_err());
    assert!(s.access().is_err());
}

#[test]
fn guard_gives_the_semaphore_back() {
    let mut s = Sema::new(1);
    let g = s.access().unwrap().unwrap();
    assert_eq!(s.get_val(), 0);
    g.finish(&mut s);
    assert_eq!(s.get_val(), 1);
}

#[test]
fn semaphore_remembers_who() {
    let mut s = Sema::new(3);
    s.set_pid(42);
    assert_eq!(s.get_pid(), 42);
    s.set_val(-5);
    assert_eq!(s.get_val(), -5);
    assert_eq!(s.get_ncnt(), 0);
}
