//! A small operating system kernel: processes and threads, virtual memory with copy on write, a
//! file system behind a block cache, pipes, semaphores, futexes, signals, timers, scheduling, and
//! the calls by which programs use all of that.
//!
//! Time is a value that is passed in or kept in a [`Clock`], threads are numbers, and what several
//! owners share lies in a table and is referred to by its place there. So every operation is a
//! function of its arguments, and its contract says exactly what it returns and changes.

pub mod consts;
pub mod seqs;
pub mod ordmap;
pub mod text;
pub mod utils;
pub mod clock;
pub mod locking;
pub mod sync_queue;
pub mod semaphore;
pub mod futex;
pub mod io;
pub mod cache;
pub mod fs;
pub mod vm;
pub mod memory;
pub mod address_space;
pub mod scheduler;
pub mod mount;
pub mod context;
pub mod elf;
pub mod net;
pub mod trap;
pub mod resource;
pub mod signal;
pub mod capability;
pub mod timer;
pub mod wait_queue;
pub mod files;
pub mod ipc;
pub mod proc_init;
pub mod task;
pub mod process_group;
pub mod audit;
pub mod kernel_struct;
pub mod syscalls;
pub mod kernel_laws;

pub use crate::consts::{
    AF_INET, AF_INET6, AF_UNIX, AT_BASE, AT_ENTRY, AT_NOFOLLOW, AT_PAGESZ, AT_PHDR, AT_PHENT,
    AT_PHNUM, BOOT_EPOCH, CAP_CHOWN, CAP_KILL, CAP_NET_BIND, CAP_NET_RAW, CAP_SETGID,
    CAP_SETUID, CAP_SYS_ADMIN, CAP_SYS_PTRACE, FD_CLOEXEC, FIOCLEX, FIONBIO, FIONCLEX,
    FOLLOW_LIM, F_DUPFD, F_DUPFD_CLOEXEC, F_GETFD, F_GETFL, F_GETLK, F_SETFD, F_SETFL, F_SETLK,
    F_SETLKW, INHERITABLE_MASK, IOQUEUE_DEPTH, KERN_BASE, KHEAP_SZ, KSTK_SZ, LM_ECHO,
    LM_ECHOCTL, LM_ECHOE, LM_ECHOK, LM_ECHOKE, LM_ECHONL, LM_ECHOPRT, LM_EXTPROC, LM_FLUSHO,
    LM_ICANON, LM_IEXTEN, LM_ISIG, LM_NOFLSH, LM_PENDIN, LM_TOSTOP, LM_XCASE, MAX_CPU, MEM_OFF,
    MNT_DEPTH, NSIG, N_CHAINS, N_FRAMES, N_PROC, N_REGS, N_ZONES, O_APPEND, O_CLOEXEC,
    O_NONBLOCK, PAGE_SZ, PHYS_OFF, PRIO_DEFAULT, PRIO_MAX, PRIO_MIN, RBUF_CAP, SCHED_BATCH,
    SCHED_FIFO, SCHED_NORMAL, SCHED_RR, SIGALRM, SIGCHLD, SIGKILL, SIGSTOP, SIGUSR1, SIGUSR2,
    SIG_DFL, SIG_IGN, SLAB_ALIGN, SLAB_OBJ_MAX, SLAB_OBJ_MIN, SOCK_DGRAM, SOCK_RAW, SOCK_STREAM,
    SYS_BRK, SYS_CLOCK_GETTIME, SYS_CLOSE, SYS_DUP, SYS_DUP2, SYS_EPOLL_CREATE, SYS_EPOLL_CTL,
    SYS_EPOLL_WAIT, SYS_EXEC, SYS_EXIT, SYS_FCNTL, SYS_FORK, SYS_FSTAT, SYS_FUTEX, SYS_GETDENTS,
    SYS_GETPGID, SYS_GETPID, SYS_GETPPID, SYS_IOCTL, SYS_KILL, SYS_MKDIR, SYS_MMAP, SYS_MUNMAP,
    SYS_OPEN, SYS_PIPE, SYS_READ, SYS_SETPGID, SYS_SETSID, SYS_SIGACTION, SYS_SIGPROCMASK,
    SYS_STAT, SYS_TRUNCATE, SYS_UNLINK, SYS_WAIT4, SYS_WRITE, TCGETS, TCSETS, TIMER_TICK_HZ,
    TIMER_WHEEL_SIZE, TIOCGPGRP, TIOCGWINSZ, TIOCSPGRP, USEC_TICK, USR_STK_OFF, USR_STK_SZ,
    VM_DONTCOPY, VM_EXEC, VM_GROWSDOWN, VM_HUGETLB, VM_PFNMAP, VM_READ, VM_SHARED, VM_WRITE,
    ZONE_DMA, ZONE_HIGH, ZONE_NORMAL,
};
pub use crate::ordmap::OrdMap;
pub use crate::utils::{
    align_down, align_up, bitwise_merge, clz64, compute_crc32, decode_varint,
    defragment_frame_pool, encode_varint, ffs64, hash_combine, is_power_of_two, log2_floor,
    mem_scan_pattern, murmurhash3_finalize, popcount64, rotate_bits, to_signed, to_unsigned,
    verify_page_alignment,
};
pub use crate::clock::{Clock, cclk, dtk, ser, tmr, up_ms, wclk};
pub use crate::locking::{FlgGuard, HOLDER_STACK_CAP, KernLock, Spin};
pub use crate::sync_queue::{EvBus, EvCb, EvFlag, ParkStep, RegEp, SyncQueue, wait_ev};
pub use crate::semaphore::{Sema, SemaGuard, SemaState};
pub use crate::futex::{FutexBucket, FutexTable, FutexWaiter};
pub use crate::io::{BLANK, DISK_BLOCK, Disk, ERRS_FOREVER, IoQueue, IoRequest};
pub use crate::cache::{
    BlockCache, CacheChain, CacheSlot, KObjEntry, KObjRegistry, PageCache, PageCacheEntry,
};
pub use crate::fs::{BLOCK_SZ, Inode, InodeType, NO_INO, PathLookup, SimpleFS};
pub use crate::vm::{
    KStk, PgFrame, VmMap, VmRegion, cfu, check_access, check_access_rw, ctu, k_off, p2v, v2p,
};
pub use crate::memory::{
    BuddyAllocator, CircBuf, FramePool, SharedPage, SlabEntry, ZoneInfo, frame_alloc,
    frame_alloc_contig, frame_dealloc, heap_grow, heap_init, rdu_fixup,
};
pub use crate::address_space::AddrSpace;
pub use crate::scheduler::{RunQueue, SchedulePolicy, Waiting, compute_load_balance};
pub use crate::mount::{MountEntry, MountTable};
pub use crate::context::Context;
pub use crate::elf::validate_elf_header;
pub use crate::net::{
    SocketState, build_pseudo_header, compute_inet_checksum, parse_ipv4_header, tcp_checksum,
};
pub use crate::trap::TrapCtl;
pub use crate::resource::ResourceLimits;
pub use crate::signal::{SigAction, SigSet};
pub use crate::capability::CapSet;
pub use crate::timer::{TimerEntry, TimerWheel};
pub use crate::wait_queue::{Sleeper, WaitQueue};
pub use crate::files::{
    Channel, EPEVENT_SZ, EpCtlOp, EpData, EpEvent, EpInst, EpSets, FHandle, FLike, FRef, FSeek,
    FdOpt, FdState, FileHeap, PipeBuf, PipeDir, PipeNode, PseudoNode, RecvStep, TRMIO_SZ, TrmIO,
    WINSZ_SZ, WinSz, read_as_vec,
};
pub use crate::ipc::{
    IpcPerm, SemArr, SemCtx, SemDs, SemHeap, SemId, SemNum, SemOp, ShmCtx, ShmHeap, ShmId,
    ShmTag, Undo, shm_get_or_create,
};
pub use crate::proc_init::ProcInit;
pub use crate::task::{Pgid, Pid, Task, TaskInfo, TaskRef, TaskTable, ThdCtx, ThdState, Tid};
pub use crate::process_group::ProcessGroup;
pub use crate::audit::{audit_fd_table, compute_rss_watermark, rehash_mount_cache, validate_access};
pub use crate::kernel_struct::{Kernel, PROG_ENTRY, TTY_CAP};
pub use crate::syscalls::{ARGS_SZ, FD_LIMIT, MMAP_START, PATH_SZ, STAT_SZ};
