//! Constants of the kernel: memory layout, flags, command numbers, system call numbers.
//!
//! The modelled machine has 64-bit words: addresses, byte counts and everything that a
//! system call passes in a register are `u64`. Counts that size a container are `usize`.

use vstd::prelude::*;

verus! {

// Memory layout

/// Size of a page, in bytes.
pub const PAGE_SZ: u64 = 4096;

/// Most processes.
pub const N_PROC: usize = 256;

/// Physical page frames of the machine.
pub const N_FRAMES: u64 = 65536;

/// First address of the kernel; user addresses lie below it.
pub const KERN_BASE: u64 = 0xFFFF_FFFF_8000_0000;

/// Where the direct map of physical memory starts.
pub const PHYS_OFF: u64 = 0xFFFF_FFFF_0000_0000;

/// Physical address of frame 0.
pub const MEM_OFF: u64 = 0x8000_0000;

/// Size of the kernel heap.
pub const KHEAP_SZ: u64 = 0x800000;

/// Chains of the block cache.
pub const N_CHAINS: usize = 64;

/// Capacity of a ring buffer.
pub const RBUF_CAP: usize = 256;

/// General registers of a context.
pub const N_REGS: usize = 16;

/// Deepest mount nesting.
pub const MNT_DEPTH: usize = 8;

/// Most CPUs.
pub const MAX_CPU: usize = 8;

/// Size of a kernel stack.
pub const KSTK_SZ: u64 = 0x4000;

/// Lowest address of the user stack.
pub const USR_STK_OFF: u64 = 0x7FFF_0000;

/// Size of the user stack.
pub const USR_STK_SZ: u64 = 0x10000;

/// Microseconds of one tick.
pub const USEC_TICK: u64 = 1000;

/// Most symbolic links followed.
pub const FOLLOW_LIM: usize = 3;

/// Tick count at boot.
pub const BOOT_EPOCH: u64 = 0;

// fcntl commands and open flags

pub const F_DUPFD: u64 = 0;

pub const F_GETFD: u64 = 1;

pub const F_SETFD: u64 = 2;

pub const F_GETFL: u64 = 3;

pub const F_SETFL: u64 = 4;

pub const F_GETLK: u64 = 5;

pub const F_SETLK: u64 = 6;

pub const F_SETLKW: u64 = 7;

/// Descriptor flag: close on exec.
pub const FD_CLOEXEC: u64 = 1;

pub const F_DUPFD_CLOEXEC: u64 = 1030;

pub const O_NONBLOCK: u64 = 0o4000;

pub const O_APPEND: u64 = 0o2000;

pub const O_CLOEXEC: u64 = 0o2000000;

pub const AT_NOFOLLOW: u64 = 0x100;

// ioctl commands

pub const TCGETS: u64 = 0x5401;

pub const TCSETS: u64 = 0x5402;

pub const TIOCGPGRP: u64 = 0x540F;

pub const TIOCSPGRP: u64 = 0x5410;

pub const TIOCGWINSZ: u64 = 0x5413;

pub const FIONCLEX: u64 = 0x5450;

pub const FIOCLEX: u64 = 0x5451;

pub const FIONBIO: u64 = 0x5421;

// ELF auxiliary vector types

pub const AT_PHDR: u8 = 3;

pub const AT_PHENT: u8 = 4;

pub const AT_PHNUM: u8 = 5;

pub const AT_PAGESZ: u8 = 6;

pub const AT_BASE: u8 = 7;

pub const AT_ENTRY: u8 = 9;

// Local mode flags of a terminal (termios l_flag)

pub const LM_ISIG: u32 = 0o000001;

pub const LM_ICANON: u32 = 0o000002;

pub const LM_ECHO: u32 = 0o000010;

pub const LM_ECHOE: u32 = 0o000020;

pub const LM_ECHOK: u32 = 0o000040;

pub const LM_ECHONL: u32 = 0o000100;

pub const LM_NOFLSH: u32 = 0o000200;

pub const LM_TOSTOP: u32 = 0o000400;

pub const LM_IEXTEN: u32 = 0o100000;

pub const LM_XCASE: u32 = 0o000004;

pub const LM_ECHOCTL: u32 = 0o001000;

pub const LM_ECHOPRT: u32 = 0o002000;

pub const LM_ECHOKE: u32 = 0o004000;

pub const LM_FLUSHO: u32 = 0o010000;

pub const LM_PENDIN: u32 = 0o040000;

pub const LM_EXTPROC: u32 = 0o200000;

// Flags of a virtual memory region

pub const VM_READ: u32 = 0x01;

pub const VM_WRITE: u32 = 0x02;

pub const VM_EXEC: u32 = 0x04;

pub const VM_SHARED: u32 = 0x08;

/// A stack: grows towards lower addresses.
pub const VM_GROWSDOWN: u32 = 0x10;

pub const VM_DONTCOPY: u32 = 0x20;

pub const VM_HUGETLB: u32 = 0x40;

pub const VM_PFNMAP: u32 = 0x80;

// Capability numbers

pub const CAP_CHOWN: u32 = 0;

pub const CAP_KILL: u32 = 5;

pub const CAP_SETUID: u32 = 7;

pub const CAP_SETGID: u32 = 6;

pub const CAP_NET_BIND: u32 = 10;

pub const CAP_NET_RAW: u32 = 13;

pub const CAP_SYS_ADMIN: u32 = 21;

pub const CAP_SYS_PTRACE: u32 = 19;

/// Capabilities that a child may inherit.
pub const INHERITABLE_MASK: u64 = 0x0000_00FF_FFFF_FFFF;

// Memory zones

pub const ZONE_DMA: usize = 0;

pub const ZONE_NORMAL: usize = 1;

pub const ZONE_HIGH: usize = 2;

pub const N_ZONES: usize = 3;

// Scheduler

pub const PRIO_MIN: i32 = -20;

pub const PRIO_MAX: i32 = 19;

pub const PRIO_DEFAULT: i32 = 0;

pub const SCHED_NORMAL: u8 = 0;

pub const SCHED_FIFO: u8 = 1;

pub const SCHED_RR: u8 = 2;

pub const SCHED_BATCH: u8 = 3;

// Slab allocator

pub const SLAB_OBJ_MIN: usize = 8;

pub const SLAB_OBJ_MAX: usize = 2048;

pub const SLAB_ALIGN: usize = 8;

// Signals

/// Number of signals.
pub const NSIG: u32 = 64;

/// Handler value: default action.
pub const SIG_DFL: u64 = 0;

/// Handler value: ignore.
pub const SIG_IGN: u64 = 1;

/// Cannot be blocked, caught or ignored.
pub const SIGKILL: u32 = 9;

/// Cannot be blocked, caught or ignored.
pub const SIGSTOP: u32 = 19;

pub const SIGCHLD: u32 = 17;

pub const SIGUSR1: u32 = 10;

pub const SIGUSR2: u32 = 12;

pub const SIGALRM: u32 = 14;

// Timers

/// Slots of the timer wheel.
pub const TIMER_WHEEL_SIZE: usize = 256;

/// Timer ticks per second.
pub const TIMER_TICK_HZ: u64 = 100;

// Sockets

pub const SOCK_STREAM: u32 = 1;

pub const SOCK_DGRAM: u32 = 2;

pub const SOCK_RAW: u32 = 3;

pub const AF_INET: u32 = 2;

pub const AF_INET6: u32 = 10;

pub const AF_UNIX: u32 = 1;

// System call numbers

pub const SYS_READ: u64 = 0;

pub const SYS_WRITE: u64 = 1;

pub const SYS_OPEN: u64 = 2;

pub const SYS_CLOSE: u64 = 3;

pub const SYS_STAT: u64 = 4;

pub const SYS_FSTAT: u64 = 5;

pub const SYS_MMAP: u64 = 9;

pub const SYS_MUNMAP: u64 = 11;

pub const SYS_BRK: u64 = 12;

pub const SYS_IOCTL: u64 = 16;

pub const SYS_PIPE: u64 = 22;

pub const SYS_DUP: u64 = 32;

pub const SYS_DUP2: u64 = 33;

pub const SYS_FORK: u64 = 57;

pub const SYS_EXEC: u64 = 59;

pub const SYS_EXIT: u64 = 60;

pub const SYS_WAIT4: u64 = 61;

pub const SYS_KILL: u64 = 62;

pub const SYS_FCNTL: u64 = 72;

pub const SYS_GETPID: u64 = 39;

pub const SYS_GETPPID: u64 = 110;

pub const SYS_SETPGID: u64 = 109;

pub const SYS_GETPGID: u64 = 121;

pub const SYS_SETSID: u64 = 112;

pub const SYS_EPOLL_CREATE: u64 = 213;

pub const SYS_EPOLL_CTL: u64 = 233;

pub const SYS_EPOLL_WAIT: u64 = 232;

pub const SYS_CLOCK_GETTIME: u64 = 228;

pub const SYS_SIGACTION: u64 = 13;

pub const SYS_SIGPROCMASK: u64 = 14;

pub const SYS_FUTEX: u64 = 202;

pub const SYS_MKDIR: u64 = 83;

pub const SYS_UNLINK: u64 = 87;

pub const SYS_TRUNCATE: u64 = 92;

pub const SYS_GETDENTS: u64 = 217;

/// Queue depth above which a batch submission merges neighbours.
pub const IOQUEUE_DEPTH: usize = 128;

} // verus!
