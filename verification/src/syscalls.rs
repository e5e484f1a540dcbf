//! The calls of user programs into the kernel.

use vstd::prelude::*;
use crate::consts::{FD_CLOEXEC, FIOCLEX, FIONBIO, FIONCLEX, F_DUPFD, F_DUPFD_CLOEXEC, F_GETFD, F_GETFL, F_GETLK, F_SETFD, F_SETFL, F_SETLK, F_SETLKW, KERN_BASE, NSIG, N_FRAMES, N_PROC, O_APPEND, O_CLOEXEC, O_NONBLOCK, PAGE_SZ, SIGCHLD, SIGKILL, SIGSTOP, SYS_BRK, SYS_CLOCK_GETTIME, SYS_CLOSE, SYS_DUP, SYS_DUP2, SYS_EPOLL_CREATE, SYS_EPOLL_CTL, SYS_EPOLL_WAIT, SYS_EXEC, SYS_EXIT, SYS_FCNTL, SYS_FORK, SYS_FSTAT, SYS_FUTEX, SYS_GETPGID, SYS_GETPID, SYS_GETPPID, SYS_IOCTL, SYS_KILL, SYS_MKDIR, SYS_MMAP, SYS_MUNMAP, SYS_OPEN, SYS_PIPE, SYS_READ, SYS_SETPGID, SYS_SETSID, SYS_SIGACTION, SYS_SIGPROCMASK, SYS_STAT, SYS_UNLINK, SYS_WAIT4, SYS_WRITE, TCGETS, TCSETS, TIMER_TICK_HZ, TIOCGPGRP, TIOCGWINSZ, TIOCSPGRP};
use crate::files::{FHandle, FLike, FRef, FSeek, FdOpt, FdState, FileRef, HeapState, PipeDir, PipeNode, EPEVENT_SZ, TRMIO_SZ, WINSZ_SZ};
use crate::fs::{InodeType, BLOCK_SZ, NO_INO};
use crate::kernel_struct::{Kernel, KernelState, PoolState, PROG_ENTRY};
use crate::memory::frame_alloc;
use crate::task::{TableState, Task, TaskRef, TaskState};
use crate::text::{numbered, text_lossy, up_to_zero};
use crate::utils::{to_signed, to_unsigned};
use crate::vm::check_access;

verus! {

/// What comes of a call: what it returns, and the kernel afterwards.
pub struct Outcome {
    /// What it returns.
    pub r: Result<u64, &'static str>,
    /// The kernel afterwards.
    pub k: KernelState,
}

/// The flag `bit` is set in `v`.
pub open spec fn flag(v: u64, bit: u64) -> bool {
    v / bit % 2 == 1
}

/// The `len` bytes from `addr` on are the user's.
pub open spec fn user_range(addr: u64, len: u64) -> bool {
    addr < KERN_BASE && addr + len <= KERN_BASE
}

impl KernelState {
    /// The call returns `v`, and nothing changes.
    pub open spec fn gives(self, v: u64) -> Outcome {
        Outcome { r: Ok(v), k: self }
    }

    /// The call fails, and nothing changes.
    pub open spec fn fails(self, e: &'static str) -> Outcome {
        Outcome { r: Err(e), k: self }
    }

    /// Whether the kernel may read or write the `len` bytes from `addr` on for the running task,
    /// and the kernel after that was seen to.
    pub open spec fn reached(self, addr: u64, len: u64, writing: bool) -> (bool, KernelState) {
        if user_range(addr, len) {
            self.ensured(addr, len, writing)
        } else {
            (false, self)
        }
    }

    /// The same where address 0 stands for no bytes.
    pub open spec fn reached_opt(self, addr: u64, len: u64, writing: bool) -> (bool, KernelState) {
        if addr == 0 {
            (true, self)
        } else {
            self.reached(addr, len, writing)
        }
    }

    /// The call returns 0 if the bytes can be reached.
    pub open spec fn touches(self, addr: u64, len: u64, writing: bool) -> Outcome {
        let (ok, k) = self.reached(addr, len, writing);
        if ok {
            k.gives(0)
        } else {
            k.fails("efault")
        }
    }

    /// The same where address 0 stands for no bytes.
    pub open spec fn touches_opt(self, addr: u64, len: u64, writing: bool) -> Outcome {
        let (ok, k) = self.reached_opt(addr, len, writing);
        if ok {
            k.gives(0)
        } else {
            k.fails("efault")
        }
    }
}

impl Kernel {
    /// Sees to it that the kernel may read or write bytes of the running task.
    fn reach(&mut self, addr: u64, len: u64, writing: bool) -> (ok: bool)
        requires
            old(self).wf(),
        ensures
            final(self).wf(),
            (ok, final(self)@) == old(self)@.reached(addr, len, writing),
    {
        if !check_access(addr, len) {
            return false;
        }
        match self.ensure_user_range(addr, len, writing) {
            Ok(_) => true,
            Err(_) => false,
        }
    }

    /// The same where address 0 stands for no bytes.
    fn reach_opt(&mut self, addr: u64, len: u64, writing: bool) -> (ok: bool)
        requires
            old(self).wf(),
        ensures
            final(self).wf(),
            (ok, final(self)@) == old(self)@.reached_opt(addr, len, writing),
    {
        if addr == 0 {
            return true;
        }
        self.reach(addr, len, writing)
    }

    /// Returns 0 if the bytes can be reached.
    fn touch(&mut self, addr: u64, len: u64, writing: bool) -> (r: Result<u64, &'static str>)
        requires
            old(self).wf(),
        ensures
            final(self).wf(),
            (Outcome { r, k: final(self)@ }) == old(self)@.touches(addr, len, writing),
    {
        if self.reach(addr, len, writing) {
            Ok(0)
        } else {
            Err("efault")
        }
    }

    /// The same where address 0 stands for no bytes.
    fn touch_opt(&mut self, addr: u64, len: u64, writing: bool) -> (r: Result<u64, &'static str>)
        requires
            old(self).wf(),
        ensures
            final(self).wf(),
            (Outcome { r, k: final(self)@ }) == old(self)@.touches_opt(addr, len, writing),
    {
        if self.reach_opt(addr, len, writing) {
            Ok(0)
        } else {
            Err("efault")
        }
    }
}

// ---------------------------------------------------------------------------------------------
// Calls that only look at memory
// ---------------------------------------------------------------------------------------------

/// Bytes of a path that the kernel reads.
pub const PATH_SZ: u64 = 256;

/// Bytes of what is told of a file.
pub const STAT_SZ: u64 = 144;

/// Bytes of a list of arguments.
pub const ARGS_SZ: u64 = 512;

/// Where mappings are put.
pub const MMAP_START: u64 = 0x7000_0000;

/// `len` up to whole pages.
pub open spec fn whole_pages(len: int) -> int {
    (len + PAGE_SZ - 1) / PAGE_SZ as int * PAGE_SZ
}

impl KernelState {
    /// What is told of the file under a path.
    pub open spec fn sys_stat(self, path: u64, buf: u64) -> Outcome {
        if buf == 0 {
            self.fails("efault")
        } else {
            let (ok, k) = self.reached(buf, STAT_SZ, true);
            if !ok {
                k.fails("efault")
            } else {
                k.touches(path, PATH_SZ, false)
            }
        }
    }

    /// What is told of an open file.
    pub open spec fn sys_fstat(self, buf: u64) -> Outcome {
        if buf == 0 {
            self.fails("efault")
        } else {
            self.touches(buf, STAT_SZ, true)
        }
    }

    /// Where a mapping goes: to `addr` if it is fixed, else to a place that the clock and the
    /// descriptor give.
    pub open spec fn mapping_at(self, addr: u64, len: u64, flags: u64, fd: u64) -> int {
        if addr != 0 && flag(flags, 0x10) {
            addr as int
        } else {
            let at = MMAP_START + (self.clock.clk * PAGE_SZ + fd * PAGE_SZ) % (KERN_BASE - MMAP_START - whole_pages(len as int));
            at - at % PAGE_SZ as int
        }
    }

    /// The length can be rounded up, and where the place is not given there is room for it.
    pub open spec fn mappable(self, addr: u64, len: u64, flags: u64, fd: u64) -> bool {
        len > 0 ==> {
            &&& len + PAGE_SZ - 1 <= u64::MAX
            &&& !(addr != 0 && flag(flags, 0x10)) ==> {
                &&& whole_pages(len as int) < KERN_BASE - MMAP_START
                &&& self.clock.clk * PAGE_SZ + fd * PAGE_SZ <= u64::MAX
            }
        }
    }

    /// Where `len` bytes would be mapped.
    pub open spec fn sys_mmap(self, addr: u64, len: u64, flags: u64, fd: u64, off: u64) -> Outcome {
        if len == 0 {
            self.fails("einval")
        } else if crate::utils::free_count(self.pool.slots) < whole_pages(len as int) / PAGE_SZ as int {
            self.fails("enomem")
        } else if !flag(flags, 0x20) && crate::address_space::page_of(off) > whole_pages(len as int) {
            self.fails("einval")
        } else {
            self.gives(self.mapping_at(addr, len, flags, fd) as u64)
        }
    }

    /// The addresses can be counted up.
    pub open spec fn unmappable(self, addr: u64, len: u64) -> bool {
        addr % PAGE_SZ == 0 ==> len + PAGE_SZ - 1 <= u64::MAX && addr + whole_pages(len as int) - PAGE_SZ <= u64::MAX
    }

    /// Unmapping needs the start of a page.
    pub open spec fn sys_munmap(self, addr: u64) -> Outcome {
        if addr % PAGE_SZ != 0 {
            self.fails("einval")
        } else {
            self.gives(0)
        }
    }

    /// Bytes that a command to a device moves, and whether the kernel writes them.
    pub open spec fn sys_ioctl(self, cmd: u64, arg: u64) -> Outcome {
        if cmd == TCGETS {
            self.touches(arg, TRMIO_SZ, true)
        } else if cmd == TCSETS {
            self.touches(arg, TRMIO_SZ, false)
        } else if cmd == TIOCGPGRP {
            self.touches(arg, 4, true)
        } else if cmd == TIOCSPGRP {
            self.touches(arg, 4, false)
        } else if cmd == TIOCGWINSZ {
            self.touches(arg, WINSZ_SZ, true)
        } else if cmd == FIONBIO {
            self.touches(arg, 4, false)
        } else if cmd == FIONCLEX || cmd == FIOCLEX {
            self.gives(0)
        } else {
            self.fails("enotty")
        }
    }

    /// Starting a program needs its path, and its arguments and environment where they are given.
    pub open spec fn sys_exec(self, path: u64, argv: u64, envp: u64) -> Outcome {
        if path == 0 {
            self.fails("efault")
        } else {
            let (ok, k) = self.reached(path, PATH_SZ, false);
            if !ok {
                k.fails("efault")
            } else {
                let (ok2, k2) = k.reached_opt(argv, ARGS_SZ, false);
                if !ok2 {
                    k2.fails("efault")
                } else {
                    k2.touches_opt(envp, ARGS_SZ, false)
                }
            }
        }
    }

    /// The descriptor can be counted up.
    pub open spec fn controllable(self, fd: u64, cmd: u64, arg: u64) -> bool {
        let base = if fd > arg { fd } else { arg };
        fd < N_PROC * 4 ==> {
            &&& cmd == F_DUPFD ==> base + self.clock.clk % 4 <= u64::MAX
            &&& cmd == F_DUPFD_CLOEXEC ==> base + 1 <= u64::MAX
        }
    }

    /// Control of a descriptor.
    pub open spec fn sys_fcntl(self, fd: u64, cmd: u64, arg: u64) -> Outcome {
        let base = if fd > arg { fd } else { arg };
        if fd >= N_PROC * 4 {
            self.fails("ebadf")
        } else if cmd == F_DUPFD {
            self.gives((base + self.clock.clk % 4) as u64)
        } else if cmd == F_DUPFD_CLOEXEC {
            self.gives((base + 1) as u64)
        } else if cmd == F_GETFD {
            self.gives(
                if crate::cache::chain_of(fd, self.width) == fd as int % self.width as int && self.cache.dom().contains(fd)
                    && self.cache[fd].1 {
                    FD_CLOEXEC
                } else {
                    0
                },
            )
        } else if cmd == F_SETFD {
            self.gives(0)
        } else if cmd == F_GETFL {
            self.gives(if fd <= 2 { O_NONBLOCK | O_APPEND } else { O_NONBLOCK })
        } else if cmd == F_SETFL {
            if arg & !(O_NONBLOCK | O_APPEND) != 0 {
                self.fails("einval")
            } else {
                self.gives(0)
            }
        } else if cmd == F_GETLK {
            self.touches(arg, 32, true)
        } else if cmd == F_SETLK || cmd == F_SETLKW {
            self.touches(arg, 32, false)
        } else {
            self.fails("einval")
        }
    }

    /// A number for a new epoll instance.
    pub open spec fn sys_epoll_create(self, size: u64) -> Outcome {
        if size == 0 {
            self.fails("einval")
        } else if size * EPEVENT_SZ > u64::MAX {
            self.fails("enomem")
        } else {
            self.gives((3 + size % 61) as u64)
        }
    }

    /// Control of an epoll instance: 1 adds, 2 removes, 3 changes.
    pub open spec fn sys_epoll_ctl(self, op: u64, ev: u64) -> Outcome {
        let (ok, k) = self.reached_opt(ev, 12, false);
        let o = op as i32;
        if !ok {
            k.fails("efault")
        } else if o == 1 || o == 3 {
            if ev == 0 {
                k.fails("efault")
            } else {
                k.gives(0)
            }
        } else if o == 2 {
            k.gives(0)
        } else {
            k.fails("einval")
        }
    }

    /// The end of the wait is a time that the clock can show.
    pub open spec fn waitable(self, timeout: u64) -> bool {
        timeout as i32 > 0 ==> self.clock.clk + (timeout as i32) * TIMER_TICK_HZ / 1000 <= u64::MAX
    }

    /// Waiting for epoll events: there are none.
    pub open spec fn sys_epoll_wait(self, events: u64, max: u64) -> Outcome {
        if events == 0 || max == 0 || max * EPEVENT_SZ > u64::MAX {
            self.fails("einval")
        } else {
            self.touches(events, (max * EPEVENT_SZ) as u64, true)
        }
    }

    /// Reading a clock: 0, 1 and 4 are clocks.
    pub open spec fn sys_clock_gettime(self, id: u64, tp: u64) -> Outcome {
        if tp == 0 {
            self.fails("efault")
        } else {
            let (ok, k) = self.reached(tp, 16, true);
            if !ok {
                k.fails("efault")
            } else if id == 0 || id == 1 || id == 4 {
                k.gives(0)
            } else {
                k.fails("einval")
            }
        }
    }

    /// Setting what a signal does; the signals that cannot be caught are refused.
    pub open spec fn sys_sigaction(self, signo: u64, act: u64, oldact: u64) -> Outcome {
        if signo == 0 || signo >= NSIG || signo == SIGKILL || signo == SIGSTOP {
            self.fails("einval")
        } else {
            let (ok, k) = self.reached_opt(act, 32, false);
            if !ok {
                k.fails("efault")
            } else {
                k.touches_opt(oldact, 32, true)
            }
        }
    }

    /// The numbers to wake and to move can be added.
    pub open spec fn futex_fits(self, op: u64, val: u64, val3: u64) -> bool {
        op % 16 == 3 ==> val + val3 <= u64::MAX
    }

    /// Futex operations: 0 waits, 1 wakes, 3 moves waiters, 5 waits with a limit, 9 wakes at two
    /// addresses.
    pub open spec fn sys_futex(self, uaddr: u64, op: u64, val: u64, timeout: u64, uaddr2: u64, val3: u64) -> Outcome {
        let (ok, k) = self.reached(uaddr, 4, true);
        let wake = if val == 0 { 1 } else { val as int };
        let count = k.tasks.map.len();
        let (ok2, k2) = k.reached(uaddr2, 4, true);
        if !ok {
            k.fails("efault")
        } else if op % 16 == 0 {
            k.touches_opt(timeout, 16, false)
        } else if op % 16 == 1 {
            k.gives((if wake < count { wake } else { count as int }) as u64)
        } else if op % 16 == 3 {
            if !ok2 {
                k2.fails("efault")
            } else {
                k2.gives((if val + val3 < 128 { val + val3 } else { 128 }) as u64)
            }
        } else if op % 16 == 5 {
            if timeout == 0 {
                k.fails("efault")
            } else {
                k.touches(timeout, 16, false)
            }
        } else if op % 16 == 9 {
            if !ok2 {
                k2.fails("efault")
            } else {
                k2.gives(((if val3 < 32 { val3 as int } else { 32 }) + (if val < 32 { val as int } else { 32 })) as u64)
            }
        } else {
            k.fails("enosys")
        }
    }
}

impl Kernel {
    /// Tells of the file under a path.
    pub fn sys_stat(&mut self, path: u64, buf: u64) -> (r: Result<u64, &'static str>)
        requires
            old(self).wf(),
        ensures
            final(self).wf(),
            (Outcome { r, k: final(self)@ }) == old(self)@.sys_stat(path, buf),
    {
        if buf == 0 || !self.reach(buf, STAT_SZ, true) {
            return Err("efault");
        }
        self.touch(path, PATH_SZ, false)
    }

    /// Tells of an open file.
    pub fn sys_fstat(&mut self, buf: u64) -> (r: Result<u64, &'static str>)
        requires
            old(self).wf(),
        ensures
            final(self).wf(),
            (Outcome { r, k: final(self)@ }) == old(self)@.sys_fstat(buf),
    {
        if buf == 0 {
            return Err("efault");
        }
        self.touch(buf, STAT_SZ, true)
    }

    /// Finds a place for a mapping.
    pub fn sys_mmap(&self, addr: u64, len: u64, flags: u64, fd: u64, off: u64) -> (r: Result<u64, &'static str>)
        requires
            self.wf(),
            self@.mappable(addr, len, flags, fd),
        ensures
            (Outcome { r, k: self@ }) == self@.sys_mmap(addr, len, flags, fd, off),
    {
        if len == 0 {
            return Err("einval");
        }
        let pages: u64 = (len + (PAGE_SZ - 1)) / PAGE_SZ;
        let whole: u64 = pages * PAGE_SZ;
        let at: u64 = if addr != 0 && flags / 0x10 % 2 == 1 {
            addr
        } else {
            let slot: u64 = (self.clock.clk * PAGE_SZ + fd * PAGE_SZ) % (KERN_BASE - MMAP_START - whole);
            let a: u64 = MMAP_START + slot;
            a - a % PAGE_SZ
        };
        if (self.pool.free_count() as u64) < pages {
            return Err("enomem");
        }
        if flags / 0x20 % 2 != 1 && off - off % PAGE_SZ > whole {
            return Err("einval");
        }
        Ok(at)
    }

    /// Takes a mapping away.
    pub fn sys_munmap(&self, addr: u64, len: u64) -> (r: Result<u64, &'static str>)
        requires
            self.wf(),
            self@.unmappable(addr, len),
        ensures
            (Outcome { r, k: self@ }) == self@.sys_munmap(addr),
    {
        if addr % PAGE_SZ != 0 {
            Err("einval")
        } else {
            Ok(0)
        }
    }

    /// Gives a device a command.
    pub fn sys_ioctl(&mut self, cmd: u64, arg: u64) -> (r: Result<u64, &'static str>)
        requires
            old(self).wf(),
        ensures
            final(self).wf(),
            (Outcome { r, k: final(self)@ }) == old(self)@.sys_ioctl(cmd, arg),
    {
        if cmd == TCGETS {
            self.touch(arg, TRMIO_SZ, true)
        } else if cmd == TCSETS {
            self.touch(arg, TRMIO_SZ, false)
        } else if cmd == TIOCGPGRP {
            self.touch(arg, 4, true)
        } else if cmd == TIOCSPGRP {
            self.touch(arg, 4, false)
        } else if cmd == TIOCGWINSZ {
            self.touch(arg, WINSZ_SZ, true)
        } else if cmd == FIONBIO {
            self.touch(arg, 4, false)
        } else if cmd == FIONCLEX || cmd == FIOCLEX {
            Ok(0)
        } else {
            Err("enotty")
        }
    }

    /// Checks what a program is to be started with.
    pub fn sys_exec(&mut self, path: u64, argv: u64, envp: u64) -> (r: Result<u64, &'static str>)
        requires
            old(self).wf(),
        ensures
            final(self).wf(),
            (Outcome { r, k: final(self)@ }) == old(self)@.sys_exec(path, argv, envp),
    {
        if path == 0 || !self.reach(path, PATH_SZ, false) {
            return Err("efault");
        }
        if !self.reach_opt(argv, ARGS_SZ, false) {
            return Err("efault");
        }
        self.touch_opt(envp, ARGS_SZ, false)
    }

    /// Controls a descriptor.
    pub fn sys_fcntl(&mut self, fd: u64, cmd: u64, arg: u64) -> (r: Result<u64, &'static str>)
        requires
            old(self).wf(),
            old(self)@.controllable(fd, cmd, arg),
        ensures
            final(self).wf(),
            (Outcome { r, k: final(self)@ }) == old(self)@.sys_fcntl(fd, cmd, arg),
    {
        if fd >= N_PROC as u64 * 4 {
            return Err("ebadf");
        }
        let base: u64 = if fd > arg {
            fd
        } else {
            arg
        };
        if cmd == F_DUPFD {
            Ok(base + self.clock.clk % 4)
        } else if cmd == F_DUPFD_CLOEXEC {
            Ok(base + 1)
        } else if cmd == F_GETFD {
            let c: usize = (fd % (self.cache.width as u64)) as usize;
            if self.cache.modified_in(c, fd) {
                Ok(FD_CLOEXEC)
            } else {
                Ok(0)
            }
        } else if cmd == F_SETFD {
            Ok(0)
        } else if cmd == F_GETFL {
            if fd <= 2 {
                Ok(O_NONBLOCK | O_APPEND)
            } else {
                Ok(O_NONBLOCK)
            }
        } else if cmd == F_SETFL {
            if arg & !(O_NONBLOCK | O_APPEND) != 0 {
                Err("einval")
            } else {
                Ok(0)
            }
        } else if cmd == F_GETLK {
            self.touch(arg, 32, true)
        } else if cmd == F_SETLK || cmd == F_SETLKW {
            self.touch(arg, 32, false)
        } else {
            Err("einval")
        }
    }

    /// Gives a number for a new epoll instance.
    pub fn sys_epoll_create(&self, size: u64) -> (r: Result<u64, &'static str>)
        ensures
            (Outcome { r, k: self@ }) == self@.sys_epoll_create(size),
    {
        if size == 0 {
            return Err("einval");
        }
        match size.checked_mul(EPEVENT_SZ) {
            Some(_) => Ok(3 + size % 61),
            None => Err("enomem"),
        }
    }

    /// Controls an epoll instance.
    pub fn sys_epoll_ctl(&mut self, op: u64, ev: u64) -> (r: Result<u64, &'static str>)
        requires
            old(self).wf(),
        ensures
            final(self).wf(),
            (Outcome { r, k: final(self)@ }) == old(self)@.sys_epoll_ctl(op, ev),
    {
        if !self.reach_opt(ev, 12, false) {
            return Err("efault");
        }
        let o: i32 = op as i32;
        if o == 1 || o == 3 {
            if ev == 0 {
                Err("efault")
            } else {
                Ok(0)
            }
        } else if o == 2 {
            Ok(0)
        } else {
            Err("einval")
        }
    }

    /// Waits for epoll events.
    pub fn sys_epoll_wait(&mut self, events: u64, max: u64, timeout: u64) -> (r: Result<u64, &'static str>)
        requires
            old(self).wf(),
            old(self)@.waitable(timeout),
        ensures
            final(self).wf(),
            (Outcome { r, k: final(self)@ }) == old(self)@.sys_epoll_wait(events, max),
    {
        if events == 0 || max == 0 {
            return Err("einval");
        }
        match max.checked_mul(EPEVENT_SZ) {
            Some(total) => self.touch(events, total, true),
            None => Err("einval"),
        }
    }

    /// Reads a clock.
    pub fn sys_clock_gettime(&mut self, id: u64, tp: u64) -> (r: Result<u64, &'static str>)
        requires
            old(self).wf(),
        ensures
            final(self).wf(),
            (Outcome { r, k: final(self)@ }) == old(self)@.sys_clock_gettime(id, tp),
    {
        if tp == 0 || !self.reach(tp, 16, true) {
            return Err("efault");
        }
        if id == 0 || id == 1 || id == 4 {
            Ok(0)
        } else {
            Err("einval")
        }
    }

    /// Checks what a signal is to do.
    pub fn sys_sigaction(&mut self, signo: u64, act: u64, oldact: u64) -> (r: Result<u64, &'static str>)
        requires
            old(self).wf(),
        ensures
            final(self).wf(),
            (Outcome { r, k: final(self)@ }) == old(self)@.sys_sigaction(signo, act, oldact),
    {
        if signo == 0 || signo >= NSIG as u64 || signo == SIGKILL as u64 || signo == SIGSTOP as u64 {
            return Err("einval");
        }
        if !self.reach_opt(act, 32, false) {
            return Err("efault");
        }
        self.touch_opt(oldact, 32, true)
    }

    /// Operates on a futex.
    pub fn sys_futex(&mut self, uaddr: u64, op: u64, val: u64, timeout: u64, uaddr2: u64, val3: u64) -> (r: Result<
        u64,
        &'static str,
    >)
        requires
            old(self).wf(),
            old(self)@.futex_fits(op, val, val3),
        ensures
            final(self).wf(),
            (Outcome { r, k: final(self)@ }) == old(self)@.sys_futex(uaddr, op, val, timeout, uaddr2, val3),
    {
        if !self.reach(uaddr, 4, true) {
            return Err("efault");
        }
        let code: u64 = op % 16;
        if code == 0 {
            self.touch_opt(timeout, 16, false)
        } else if code == 1 {
            let wake: u64 = if val == 0 {
                1
            } else {
                val
            };
            let count: u64 = self.tasks.count() as u64;
            Ok(
                if wake < count {
                    wake
                } else {
                    count
                },
            )
        } else if code == 3 {
            if !self.reach(uaddr2, 4, true) {
                return Err("efault");
            }
            let n: u64 = val + val3;
            Ok(
                if n < 128 {
                    n
                } else {
                    128
                },
            )
        } else if code == 5 {
            if timeout == 0 {
                return Err("efault");
            }
            self.touch(timeout, 16, false)
        } else if code == 9 {
            if !self.reach(uaddr2, 4, true) {
                return Err("efault");
            }
            let moved: u64 = if val3 < 32 {
                val3
            } else {
                32
            };
            let woken: u64 = if val < 32 {
                val
            } else {
                32
            };
            Ok(moved + woken)
        } else {
            Err("enosys")
        }
    }
}

// ---------------------------------------------------------------------------------------------
// Calls that deal with tasks
// ---------------------------------------------------------------------------------------------

/// Task `t` is still known under its number and has ended.
pub open spec fn finished(s: TableState) -> spec_fn(TaskRef) -> bool {
    |t: TaskRef|
        s.map.dom().contains(s.arena[t as int].id) && s.arena[s.map[s.arena[t as int].id] as int].status is Some
}

/// A number other than that of the first process.
pub open spec fn not_first() -> spec_fn(u64) -> bool {
    |k: u64| k > 1
}

impl TableState {
    /// The tasks of a group.
    pub open spec fn group(self, pgid: i32) -> Seq<TaskRef> {
        self.members().filter(crate::task::grouped(self.arena, pgid))
    }

    /// The numbers whose tasks have ended.
    pub open spec fn zombies(self) -> Seq<u64> {
        crate::seqs::sorted_keys(self.map).filter(crate::task::ended(self, true))
    }

    /// All tasks that have not ended, except the first process.
    pub open spec fn others(self) -> Seq<TaskRef> {
        crate::seqs::sorted_keys(self.map).filter(crate::task::ended(self, false)).filter(not_first()).map_values(
            |k: u64| self.map[k],
        )
    }
}

/// The frame that the clock `now` gives.
pub open spec fn next_frame(slots: Seq<bool>, now: u64) -> int {
    choose|i: int| crate::memory::first_free_from(slots, crate::memory::reduced(now as int, slots.len()), i)
}

/// Which frames are free after `n` more were taken, as far as there are any.
pub open spec fn frames_taken(slots: Seq<bool>, now: u64, n: nat) -> Seq<bool>
    decreases n,
{
    if n == 0 {
        slots
    } else {
        let s = frames_taken(slots, now, (n - 1) as nat);
        if crate::memory::none_free(s) {
            s
        } else {
            s.update(next_frame(s, now), false)
        }
    }
}

proof fn lemma_next_frame(slots: Seq<bool>, now: u64, i: int)
    requires
        crate::memory::first_free_from(slots, crate::memory::reduced(now as int, slots.len()), i),
    ensures
        next_frame(slots, now) == i,
{
    let start = crate::memory::reduced(now as int, slots.len());
    assert(crate::memory::first_free_from(slots, start, next_frame(slots, now)));
    crate::memory::lemma_first_from_unique(slots, start, i, next_frame(slots, now));
}

impl KernelState {
    /// With task `t` replaced.
    pub open spec fn with_task(self, t: TaskRef, a: TaskState) -> KernelState {
        KernelState { tasks: self.tasks.with(t, a), ..self }
    }

    /// The number of the running task; 1 where there is none.
    pub open spec fn sys_getpid(self) -> Outcome {
        self.gives(if self.cur() is Some { self.cur_state().id } else { 1 })
    }

    /// The number of the running task's parent; 0 where there is none.
    pub open spec fn sys_getppid(self) -> Outcome {
        if self.cur() is Some {
            match self.cur_state().parent {
                Some(p) => self.gives(self.tasks.arena[p as int].id),
                None => self.gives(0),
            }
        } else {
            self.gives(0)
        }
    }

    /// Puts a task into a group. It must be the running one or one of its children; 0 stands for the
    /// running task, and for a group of the task's own number.
    pub open spec fn sys_setpgid(self, pid: u64, pgid: u64) -> Outcome {
        let caller = self.sys_getpid().r->Ok_0;
        let target = if pid == 0 { caller } else { pid };
        let new = if pgid == 0 { target } else { pgid };
        let s = self.tasks;
        let t = s.map[target];
        let a = s.arena[t as int];
        if target != caller && !(s.map.dom().contains(target) && a.parent is Some && s.arena[a.parent->0 as int].id == caller) {
            self.fails("esrch")
        } else if s.map.dom().contains(target) {
            self.with_task(t, TaskState { pgid: new as i32, ..a }).gives(0)
        } else {
            self.gives(0)
        }
    }

    /// The group of a task; 0 stands for the running one.
    pub open spec fn sys_getpgid(self, pid: u64) -> Outcome {
        let target = if pid != 0 {
            pid
        } else if self.cur() is Some {
            self.cur_state().id
        } else {
            0
        };
        if target == 0 || !self.tasks.map.dom().contains(target) {
            self.fails("esrch")
        } else {
            self.gives(crate::utils::unsigned(self.tasks.arena[self.tasks.map[target] as int].pgid as int))
        }
    }

    /// Makes the running task the leader of a group of its own, unless it already is one.
    pub open spec fn sys_setsid(self) -> Outcome {
        let a = self.cur_state();
        if self.cur() is None {
            self.fails("esrch")
        } else if crate::utils::unsigned(a.pgid as int) == a.id {
            self.fails("eperm")
        } else {
            self.with_task(self.cur()->0, TaskState { pgid: a.id as i32, ..a }).gives(a.id)
        }
    }

    /// Changes which signals the running task blocks: 0 blocks more, 1 blocks fewer, 2 sets them.
    /// The signals that cannot be blocked are not.
    pub open spec fn sys_sigprocmask(self, how: u64, set: u64, oldset: u64) -> Outcome {
        let (ok, k) = self.reached_opt(set, 8, false);
        let (ok2, k2) = k.reached_opt(oldset, 8, true);
        let a = k2.cur_state();
        let m = a.sig_mask;
        if !ok {
            k.fails("efault")
        } else if !ok2 {
            k2.fails("efault")
        } else if k2.cur() is None || set == 0 {
            k2.gives(0)
        } else if how == 0 {
            k2.with_task(
                k2.cur()->0,
                TaskState { sig_mask: (m | set) & !((1u64 << SIGKILL) | (1u64 << SIGSTOP)), ..a },
            ).gives(0)
        } else if how == 1 {
            k2.with_task(k2.cur()->0, TaskState { sig_mask: m & !set, ..a }).gives(0)
        } else if how == 2 {
            k2.with_task(
                k2.cur()->0,
                TaskState { sig_mask: set & !((1u64 << SIGKILL) | (1u64 << SIGSTOP)), ..a },
            ).gives(0)
        } else {
            k2.fails("einval")
        }
    }

    /// What a wait returns when no task has ended: 0 if the caller does not want to wait.
    pub open spec fn none_ended(self, options: u64) -> Outcome {
        if options % 2 == 1 {
            self.gives(0)
        } else {
            self.fails("echild")
        }
    }

    /// Looks for a task that has ended: -1 for any, 0 for one of the running task's group, a
    /// positive number for the one with it, and another negative number for one of that group.
    pub open spec fn ended_for(self, pid: int, options: u64) -> Outcome {
        let s = self.tasks;
        let g = s.group(if pid == 0 { self.cur_state().pgid } else { (-pid) as i32 });
        let hits = g.filter(finished(s));
        if pid == -1 {
            if s.zombies().len() == 0 {
                self.none_ended(options)
            } else {
                self.gives(s.zombies()[0])
            }
        } else if pid == 0 {
            if self.cur() is None {
                self.fails("echild")
            } else if hits.len() == 0 {
                self.none_ended(options)
            } else {
                self.gives(s.arena[hits.last() as int].id)
            }
        } else if pid > 0 {
            if !s.map.dom().contains(pid as u64) {
                self.fails("echild")
            } else if s.arena[s.map[pid as u64] as int].status is Some {
                self.gives(pid as u64)
            } else {
                self.none_ended(options)
            }
        } else if g.len() == 0 {
            self.fails("echild")
        } else if hits.len() == 0 {
            self.none_ended(options)
        } else {
            self.gives(s.arena[hits[0] as int].id)
        }
    }

    /// Waits for a task to end.
    pub open spec fn sys_wait4(self, pid: u64, status: u64, options: u64, rusage: u64) -> Outcome {
        let (ok, k) = self.reached_opt(status, 4, true);
        let (ok2, k2) = k.reached_opt(rusage, STAT_SZ, true);
        if !ok {
            k.fails("efault")
        } else if !ok2 {
            k2.fails("efault")
        } else {
            k2.ended_for(crate::utils::signed(pid), options)
        }
    }

    /// After the tasks `g` got a signal.
    pub open spec fn told(self, g: Seq<TaskRef>, sig: u64) -> KernelState {
        KernelState { tasks: self.tasks.signalled(g, sig as i32, (-1int) as i64, g.len() as int), ..self }
    }

    /// Sends a signal: to the running task's group for 0, to all but the first process for -1, to
    /// the task with a positive number, or to the group of the opposite of another negative number.
    /// The signals that end or stop a task are not sent to the first process.
    pub open spec fn sys_kill(self, pid: u64, sig: u64) -> Outcome {
        let s = self.tasks;
        let p = crate::utils::signed(pid);
        let t = s.map[pid];
        if sig > NSIG {
            self.fails("einval")
        } else if (sig == SIGKILL || sig == SIGSTOP) && -1 <= p <= 1 {
            self.fails("eperm")
        } else if p == 0 {
            if self.cur() is None {
                self.gives(0)
            } else {
                let g = s.group(self.cur_state().pgid);
                self.told(g, sig).gives(g.len() as u64)
            }
        } else if p == -1 {
            if s.others().len() == 0 {
                self.fails("esrch")
            } else {
                self.told(s.others(), sig).gives(s.others().len() as u64)
            }
        } else if p > 0 {
            if !s.map.dom().contains(pid) || (s.arena[t as int].status is Some && sig != 0) {
                self.fails("esrch")
            } else {
                self.with_task(t, s.arena[t as int].signalled(sig as i32, (-1int) as i64)).gives(0)
            }
        } else {
            let g = s.group((-p) as i32);
            if g.len() == 0 {
                self.fails("esrch")
            } else {
                self.told(g, sig).gives(g.len() as u64)
            }
        }
    }

    /// Ends the running task: its files are closed, its parent is told, and the first process takes
    /// its children.
    pub open spec fn sys_exit(self, status: u64) -> Outcome {
        if self.cur() is None {
            self.gives(0)
        } else {
            let t = self.cur()->0;
            let a = self.cur_state();
            let refs = crate::task::open_refs(a.files);
            let s1 = self.tasks.exited(t, status);
            let s2 = match a.parent {
                Some(p) => s1.with(
                    p,
                    s1.arena[p as int].signalled(SIGCHLD as i32, crate::utils::signed(a.id) as i64),
                ),
                None => s1,
            };
            let s3 = if s2.map.dom().contains(1) {
                s2.adopted(a.subtasks, s2.map[1], a.subtasks.len() as int)
            } else {
                s2
            };
            Outcome {
                r: Ok(0),
                k: KernelState {
                    tasks: s3,
                    heap: crate::task::closed_all(self.heap, refs, refs.len() as int),
                    ..self
                },
            }
        }
    }

    /// The numbers in a fork can be reckoned.
    pub open spec fn forkable(self) -> bool {
        crate::utils::free_count(self.pool.slots) <= N_FRAMES && 256 + self.tasks.map.len() * 2 <= u64::MAX
    }

    /// The number for a child, which is used up in any case. It is refused where more than 90 of a
    /// hundred frames are in use, or too few are left.
    pub open spec fn sys_fork(self) -> Outcome {
        let free = crate::utils::free_count(self.pool.slots);
        let k = KernelState { tasks: TableState { seq: self.tasks.seq.wrapping_add(1), ..self.tasks }, ..self };
        let cost = (if free < 256 { free as int } else { 256 }) + self.tasks.map.len() * 2;
        if (N_FRAMES - free) * 100 / N_FRAMES as int > 90 || free < cost / PAGE_SZ as int {
            k.fails("enomem")
        } else {
            k.gives(self.tasks.seq)
        }
    }

    /// Moves the end of the running task's data, with frames for what it gains.
    pub open spec fn sys_brk(self, end: u64) -> Outcome {
        let a = self.cur_state();
        let up = whole_pages(end as int);
        let need = if up > a.vm_token { (up - a.vm_token) / PAGE_SZ as int } else { 0 };
        if end == 0 {
            self.gives(PROG_ENTRY)
        } else if end >= KERN_BASE {
            self.fails("enomem")
        } else if self.cur() is None {
            self.gives(up as u64)
        } else if crate::utils::free_count(self.pool.slots) < need {
            self.fails("enomem")
        } else {
            KernelState {
                pool: PoolState { slots: frames_taken(self.pool.slots, self.clock.clk, need as nat), ..self.pool },
                ..self.with_task(self.cur()->0, TaskState { vm_token: up as u64, ..a })
            }.gives(up as u64)
        }
    }
}

impl Kernel {
    /// Replaces the group of a task.
    fn set_pgid(&mut self, t: TaskRef, pgid: i32)
        requires
            old(self).wf(),
            t < old(self)@.tasks.arena.len(),
        ensures
            final(self).wf(),
            final(self)@ == old(self)@.with_task(t, TaskState { pgid, ..old(self)@.tasks.arena[t as int] }),
    {
        let ghost k0 = self@;
        let ghost a = k0.tasks.arena[t as int];
        assert(self.tasks.arena@[t as int]@ == a);
        self.tasks.arena[t].pgid = pgid;
        proof {
            let b = TaskState { pgid, ..a };
            assert(self.tasks.arena@[t as int]@ =~= b);
            assert(self.tasks@ =~= k0.tasks.with(t, b));
            assert(a.valid(k0.heap) && crate::kernel_struct::frames_in(a.space, k0.pool.slots.len()));
            crate::kernel_struct::lemma_task_changed(k0, self@, t, b);
        }
    }

    /// Replaces the signals that a task blocks.
    fn set_sig_mask(&mut self, t: TaskRef, sig_mask: u64)
        requires
            old(self).wf(),
            t < old(self)@.tasks.arena.len(),
        ensures
            final(self).wf(),
            final(self)@ == old(self)@.with_task(t, TaskState { sig_mask, ..old(self)@.tasks.arena[t as int] }),
    {
        let ghost k0 = self@;
        let ghost a = k0.tasks.arena[t as int];
        assert(self.tasks.arena@[t as int]@ == a);
        self.tasks.arena[t].sig_mask = sig_mask;
        proof {
            let b = TaskState { sig_mask, ..a };
            assert(self.tasks.arena@[t as int]@ =~= b);
            assert(self.tasks@ =~= k0.tasks.with(t, b));
            assert(a.valid(k0.heap) && crate::kernel_struct::frames_in(a.space, k0.pool.slots.len()));
            crate::kernel_struct::lemma_task_changed(k0, self@, t, b);
        }
    }

    /// Replaces the end of a task's data.
    fn set_vm_token(&mut self, t: TaskRef, vm_token: u64)
        requires
            old(self).wf(),
            t < old(self)@.tasks.arena.len(),
        ensures
            final(self).wf(),
            final(self)@ == old(self)@.with_task(t, TaskState { vm_token, ..old(self)@.tasks.arena[t as int] }),
    {
        let ghost k0 = self@;
        let ghost a = k0.tasks.arena[t as int];
        assert(self.tasks.arena@[t as int]@ == a);
        self.tasks.arena[t].vm_token = vm_token;
        proof {
            let b = TaskState { vm_token, ..a };
            assert(self.tasks.arena@[t as int]@ =~= b);
            assert(self.tasks@ =~= k0.tasks.with(t, b));
            assert(a.valid(k0.heap) && crate::kernel_struct::frames_in(a.space, k0.pool.slots.len()));
            crate::kernel_struct::lemma_task_changed(k0, self@, t, b);
        }
    }

    /// The number of the running task.
    pub fn sys_getpid(&self) -> (r: Result<u64, &'static str>)
        requires
            self.wf(),
        ensures
            (Outcome { r, k: self@ }) == self@.sys_getpid(),
    {
        match self.cur_task(0) {
            Some(t) => {
                assert(self.tasks.arena@[t as int]@ == self@.tasks.arena[t as int]);
                Ok(self.tasks.arena[t].id())
            },
            None => Ok(1),
        }
    }

    /// The number of the running task's parent.
    pub fn sys_getppid(&self) -> (r: Result<u64, &'static str>)
        requires
            self.wf(),
        ensures
            (Outcome { r, k: self@ }) == self@.sys_getppid(),
    {
        match self.cur_task(0) {
            Some(t) => {
                assert(self.tasks.arena@[t as int]@ == self@.tasks.arena[t as int]);
                assert(self@.tasks.arena[t as int].parent matches Some(p) ==> p < self@.tasks.arena.len());
                match self.tasks.arena[t].parent {
                    Some(p) => {
                        assert(self.tasks.arena@[p as int]@ == self@.tasks.arena[p as int]);
                        Ok(self.tasks.arena[p].id())
                    },
                    None => Ok(0),
                }
            },
            None => Ok(0),
        }
    }

    /// Puts a task into a group.
    pub fn sys_setpgid(&mut self, pid: u64, pgid: u64) -> (r: Result<u64, &'static str>)
        requires
            old(self).wf(),
        ensures
            final(self).wf(),
            (Outcome { r, k: final(self)@ }) == old(self)@.sys_setpgid(pid, pgid),
    {
        let caller: u64 = self.sys_getpid()?;
        let target: u64 = if pid == 0 {
            caller
        } else {
            pid
        };
        let new: u64 = if pgid == 0 {
            target
        } else {
            pgid
        };
        let found = self.tasks.find(target);
        if target != caller {
            let child = match found {
                Some(t) => {
                    assert(self.tasks.arena@[t as int]@ == self@.tasks.arena[t as int]);
                    assert(self@.tasks.arena[t as int].parent matches Some(p) ==> p < self@.tasks.arena.len());
                    match self.tasks.arena[t].parent {
                        Some(p) => {
                            assert(self.tasks.arena@[p as int]@ == self@.tasks.arena[p as int]);
                            self.tasks.arena[p].id() == caller
                        },
                        None => false,
                    }
                },
                None => false,
            };
            if !child {
                return Err("esrch");
            }
        }
        match found {
            Some(t) => self.set_pgid(t, new as i32),
            None => {},
        }
        Ok(0)
    }

    /// The group of a task.
    pub fn sys_getpgid(&self, pid: u64) -> (r: Result<u64, &'static str>)
        requires
            self.wf(),
        ensures
            (Outcome { r, k: self@ }) == self@.sys_getpgid(pid),
    {
        let target: u64 = if pid != 0 {
            pid
        } else {
            match self.cur_task(0) {
                Some(t) => {
                    assert(self.tasks.arena@[t as int]@ == self@.tasks.arena[t as int]);
                    self.tasks.arena[t].id()
                },
                None => 0,
            }
        };
        if target == 0 {
            return Err("esrch");
        }
        match self.tasks.find(target) {
            Some(t) => {
                assert(self.tasks.arena@[t as int]@ == self@.tasks.arena[t as int]);
                Ok(to_unsigned(self.tasks.arena[t].pgid as i64))
            },
            None => Err("esrch"),
        }
    }

    /// Makes the running task the leader of a group.
    pub fn sys_setsid(&mut self) -> (r: Result<u64, &'static str>)
        requires
            old(self).wf(),
        ensures
            final(self).wf(),
            (Outcome { r, k: final(self)@ }) == old(self)@.sys_setsid(),
    {
        match self.cur_task(0) {
            Some(t) => {
                assert(self.tasks.arena@[t as int]@ == self@.tasks.arena[t as int]);
                let id: u64 = self.tasks.arena[t].id();
                if to_unsigned(self.tasks.arena[t].pgid as i64) == id {
                    return Err("eperm");
                }
                self.set_pgid(t, id as i32);
                Ok(id)
            },
            None => Err("esrch"),
        }
    }

    /// Changes which signals the running task blocks.
    pub fn sys_sigprocmask(&mut self, how: u64, set: u64, oldset: u64) -> (r: Result<u64, &'static str>)
        requires
            old(self).wf(),
        ensures
            final(self).wf(),
            (Outcome { r, k: final(self)@ }) == old(self)@.sys_sigprocmask(how, set, oldset),
    {
        if !self.reach_opt(set, 8, false) {
            return Err("efault");
        }
        if !self.reach_opt(oldset, 8, true) {
            return Err("efault");
        }
        match self.cur_task(0) {
            Some(t) => {
                if set != 0 {
                    assert(self.tasks.arena@[t as int]@ == self@.tasks.arena[t as int]);
                    let m: u64 = self.tasks.arena[t].sig_mask;
                    if how == 0 {
                        self.set_sig_mask(t, (m | set) & !((1u64 << SIGKILL) | (1u64 << SIGSTOP)));
                    } else if how == 1 {
                        self.set_sig_mask(t, m & !set);
                    } else if how == 2 {
                        self.set_sig_mask(t, set & !((1u64 << SIGKILL) | (1u64 << SIGSTOP)));
                    } else {
                        return Err("einval");
                    }
                }
            },
            None => {},
        }
        Ok(0)
    }

    /// The tasks of `g` that are still known under their numbers and have ended.
    fn finished_of(&self, g: &Vec<TaskRef>) -> (v: Vec<TaskRef>)
        requires
            self.wf(),
            forall|i: int| 0 <= i < g@.len() ==> (#[trigger] g@[i]) < self@.tasks.arena.len(),
        ensures
            v@ == g@.filter(finished(self@.tasks)),
            forall|i: int| 0 <= i < v@.len() ==> (#[trigger] v@[i]) < self@.tasks.arena.len(),
    {
        let ghost p = finished(self@.tasks);
        let mut v: Vec<TaskRef> = Vec::new();
        let mut i: usize = 0;
        proof {
            crate::seqs::lemma_filter_ends(g@, p);
        }
        while i < g.len()
            invariant
                self.wf(),
                i <= g@.len(),
                p == finished(self@.tasks),
                forall|i: int| 0 <= i < g@.len() ==> (#[trigger] g@[i]) < self@.tasks.arena.len(),
                forall|i: int| 0 <= i < v@.len() ==> (#[trigger] v@[i]) < self@.tasks.arena.len(),
                v@ == g@.take(i as int).filter(p),
            decreases g@.len() - i,
        {
            proof {
                crate::seqs::lemma_filter_step(g@, i as int, p);
            }
            let t: usize = g[i];
            assert(self.tasks.arena@[t as int]@ == self@.tasks.arena[t as int]);
            match self.tasks.find(self.tasks.arena[t].id()) {
                Some(x) => {
                    assert(self.tasks.arena@[x as int]@ == self@.tasks.arena[x as int]);
                    if self.tasks.arena[x].done() {
                        v.push(t);
                    }
                },
                None => {},
            }
            i += 1;
        }
        v
    }

    /// Looks for a task that has ended.
    fn find_ended(&self, pid: i64, options: u64) -> (r: Result<u64, &'static str>)
        requires
            self.wf(),
            pid > i64::MIN,
        ensures
            (Outcome { r, k: self@ }) == self@.ended_for(pid as int, options),
    {
        let none: Result<u64, &'static str> = if options % 2 == 1 {
            Ok(0)
        } else {
            Err("echild")
        };
        if pid == -1 {
            let z = self.tasks.zombie_tasks();
            return if z.len() == 0 {
                none
            } else {
                Ok(z[0])
            };
        }
        if pid > 0 {
            return match self.tasks.find(pid as u64) {
                Some(t) => {
                    assert(self.tasks.arena@[t as int]@ == self@.tasks.arena[t as int]);
                    if self.tasks.arena[t].done() {
                        Ok(pid as u64)
                    } else {
                        none
                    }
                },
                None => Err("echild"),
            };
        }
        if pid == 0 {
            let t: usize = match self.cur_task(0) {
                Some(t) => t,
                None => {
                    return Err("echild");
                },
            };
            assert(self.tasks.arena@[t as int]@ == self@.tasks.arena[t as int]);
            let g = self.tasks.pgid_group(self.tasks.arena[t].pgid);
            let hits = self.finished_of(&g);
            let n = hits.len();
            if n == 0 {
                return none;
            }
            let x: usize = hits[n - 1];
            assert(self.tasks.arena@[x as int]@ == self@.tasks.arena[x as int]);
            return Ok(self.tasks.arena[x].id());
        }
        let g = self.tasks.pgid_group((-pid) as i32);
        if g.len() == 0 {
            return Err("echild");
        }
        let hits = self.finished_of(&g);
        if hits.len() == 0 {
            return none;
        }
        let x: usize = hits[0];
        assert(self.tasks.arena@[x as int]@ == self@.tasks.arena[x as int]);
        Ok(self.tasks.arena[x].id())
    }

    /// Waits for a task to end.
    pub fn sys_wait4(&mut self, pid: u64, status: u64, options: u64, rusage: u64) -> (r: Result<u64, &'static str>)
        requires
            old(self).wf(),
            crate::utils::signed(pid) > i64::MIN,
        ensures
            final(self).wf(),
            (Outcome { r, k: final(self)@ }) == old(self)@.sys_wait4(pid, status, options, rusage),
    {
        if !self.reach_opt(status, 4, true) {
            return Err("efault");
        }
        if !self.reach_opt(rusage, STAT_SZ, true) {
            return Err("efault");
        }
        self.find_ended(to_signed(pid), options)
    }

    /// Sends a signal to the tasks `g`.
    fn tell(&mut self, g: &Vec<TaskRef>, sig: u64)
        requires
            old(self).wf(),
            forall|i: int| 0 <= i < g@.len() ==> (#[trigger] g@[i]) < old(self)@.tasks.arena.len(),
        ensures
            final(self).wf(),
            final(self)@ == old(self)@.told(g@, sig),
    {
        let ghost k0 = self@;
        self.tasks.signal_all(g, sig as i32, -1);
        proof {
            lemma_signalled_keeps(k0.tasks, g@, sig as i32, (-1int) as i64, g@.len() as int);
            assert(self@ =~= k0.told(g@, sig));
            crate::kernel_struct::lemma_tasks_changed(k0, self@);
        }
    }

    /// All tasks that have not ended, except the first process.
    fn others(&self) -> (v: Vec<TaskRef>)
        requires
            self.wf(),
        ensures
            v@ == self@.tasks.others(),
            forall|i: int| 0 <= i < v@.len() ==> (#[trigger] v@[i]) < self@.tasks.arena.len(),
    {
        let ids = self.tasks.active_tasks();
        let ghost s = self@.tasks;
        let ghost p = not_first();
        let mut v: Vec<TaskRef> = Vec::new();
        let mut i: usize = 0;
        proof {
            crate::seqs::lemma_filter_ends(ids@, p);
            assert(v@ =~= ids@.take(0).filter(p).map_values(|k: u64| s.map[k]));
        }
        while i < ids.len()
            invariant
                self.wf(),
                s == self@.tasks,
                i <= ids@.len(),
                p == not_first(),
                forall|i: int| 0 <= i < ids@.len() ==> s.map.dom().contains(#[trigger] ids@[i]),
                forall|i: int| 0 <= i < v@.len() ==> (#[trigger] v@[i]) < s.arena.len(),
                v@ == ids@.take(i as int).filter(p).map_values(|k: u64| s.map[k]),
            decreases ids@.len() - i,
        {
            let ghost done = ids@.take(i as int).filter(p);
            proof {
                crate::seqs::lemma_filter_step(ids@, i as int, p);
                assert(done.push(ids@[i as int]).map_values(|k: u64| s.map[k]) =~= done.map_values(|k: u64| s.map[k]).push(
                    s.map[ids@[i as int]],
                ));
            }
            if ids[i] > 1 {
                match self.tasks.find(ids[i]) {
                    Some(t) => v.push(t),
                    None => {},
                }
            }
            i += 1;
        }
        v
    }

    /// Sends a signal.
    pub fn sys_kill(&mut self, pid: u64, sig: u64) -> (r: Result<u64, &'static str>)
        requires
            old(self).wf(),
            crate::utils::signed(pid) > i64::MIN,
        ensures
            final(self).wf(),
            (Outcome { r, k: final(self)@ }) == old(self)@.sys_kill(pid, sig),
    {
        let p: i64 = to_signed(pid);
        if sig > NSIG as u64 {
            return Err("einval");
        }
        if (sig == SIGKILL as u64 || sig == SIGSTOP as u64) && -1 <= p && p <= 1 {
            return Err("eperm");
        }
        if p == 0 {
            return match self.cur_task(0) {
                Some(t) => {
                    assert(self.tasks.arena@[t as int]@ == self@.tasks.arena[t as int]);
                    let g = self.tasks.pgid_group(self.tasks.arena[t].pgid);
                    self.tell(&g, sig);
                    Ok(g.len() as u64)
                },
                None => Ok(0),
            };
        }
        if p > 0 {
            return match self.tasks.find(pid) {
                Some(t) => {
                    assert(self.tasks.arena@[t as int]@ == self@.tasks.arena[t as int]);
                    if self.tasks.arena[t].done() && sig != 0 {
                        return Err("esrch");
                    }
                    let ghost k0 = self@;
                    self.tasks.signal_one(t, sig as i32, -1);
                    proof {
                        let b = k0.tasks.arena[t as int].signalled(sig as i32, (-1int) as i64);
                        assert(self@ =~= k0.with_task(t, b));
                        crate::kernel_struct::lemma_tasks_changed(k0, self@);
                    }
                    Ok(0)
                },
                None => Err("esrch"),
            };
        }
        let g = if p == -1 {
            self.others()
        } else {
            self.tasks.pgid_group((-p) as i32)
        };
        if g.len() == 0 {
            return Err("esrch");
        }
        self.tell(&g, sig);
        Ok(g.len() as u64)
    }

    /// Ends the running task.
    pub fn sys_exit(&mut self, status: u64) -> (r: Result<u64, &'static str>)
        requires
            old(self).wf(),
            old(self)@.cur() is Some ==> crate::task::closable_times(
                old(self)@.heap,
                old(self)@.cur_state().files.len() as int,
            ),
        ensures
            final(self).wf(),
            (Outcome { r, k: final(self)@ }) == old(self)@.sys_exit(status),
    {
        let t: usize = match self.cur_task(0) {
            Some(t) => t,
            None => {
                return Ok(0);
            },
        };
        let ghost k0 = self@;
        let ghost a = k0.tasks.arena[t as int];
        Task::exit_proc(&mut self.tasks, &mut self.heap, t, status);
        let ghost s1 = self.tasks@;
        let ghost h1 = self.heap@;
        assert(self.tasks.arena@[t as int]@ == s1.arena[t as int]);
        let id: u64 = self.tasks.arena[t].id();
        assert(s1.arena[t as int].parent matches Some(p) ==> p < s1.arena.len());
        match self.tasks.arena[t].parent {
            Some(p) => self.tasks.signal_one(p, SIGCHLD as i32, to_signed(id)),
            None => {},
        }
        let ghost s2 = self.tasks@;
        assert(self.tasks.arena@[t as int]@ == s2.arena[t as int]);
        assert(s2.arena[t as int].subtasks == a.subtasks);
        match self.tasks.find(1) {
            Some(r) => {
                self.tasks.hand_over(t, r);
                proof {
                    assert forall|j: int| 0 <= j < a.subtasks.len() implies (#[trigger] a.subtasks[j]) < s2.arena.len() by {
                        assert(s2.arena[t as int].subtasks[j] < s2.arena.len());
                    }
                    crate::task::lemma_adopted_keeps(s2, a.subtasks, r, a.subtasks.len() as int);
                }
            },
            None => {},
        }
        proof {
            assert(self@ =~= k0.sys_exit(status).k);
            let mid = KernelState { tasks: s1, heap: h1, ..k0 };
            assert(mid.sound()) by {
                assert forall|i: int| 0 <= i < s1.arena.len() implies crate::kernel_struct::frames_in(
                    (#[trigger] s1.arena[i]).space,
                    mid.pool.slots.len(),
                ) by {
                    assert(s1.arena[i].space == k0.tasks.arena[i].space);
                    assert(crate::kernel_struct::frames_in(k0.tasks.arena[i].space, k0.pool.slots.len()));
                }
            }
            crate::kernel_struct::lemma_tasks_changed(mid, self@);
        }
        Ok(0)
    }

    /// Takes a number for a child.
    pub fn sys_fork(&mut self) -> (r: Result<u64, &'static str>)
        requires
            old(self).wf(),
            old(self)@.forkable(),
        ensures
            final(self).wf(),
            (Outcome { r, k: final(self)@ }) == old(self)@.sys_fork(),
    {
        let free: u64 = self.pool.free_count() as u64;
        let count: u64 = self.tasks.count() as u64;
        let cost: u64 = (if free < 256 {
            free
        } else {
            256
        }) + count * 2;
        let ghost k0 = self@;
        let id: u64 = self.tasks.next_id();
        proof {
            assert(self@ =~= k0.sys_fork().k);
            crate::kernel_struct::lemma_tasks_changed(k0, self@);
        }
        if (N_FRAMES - free) * 100 / N_FRAMES > 90 {
            return Err("enomem");
        }
        if free < cost / PAGE_SZ {
            return Err("enomem");
        }
        Ok(id)
    }

    /// Moves the end of the running task's data.
    pub fn sys_brk(&mut self, end: u64) -> (r: Result<u64, &'static str>)
        requires
            old(self).wf(),
        ensures
            final(self).wf(),
            (Outcome { r, k: final(self)@ }) == old(self)@.sys_brk(end),
    {
        if end == 0 {
            return Ok(PROG_ENTRY);
        }
        if end >= KERN_BASE {
            return Err("enomem");
        }
        let up: u64 = (end + PAGE_SZ - 1) / PAGE_SZ * PAGE_SZ;
        let t: usize = match self.cur_task(0) {
            Some(t) => t,
            None => {
                return Ok(up);
            },
        };
        assert(self.tasks.arena@[t as int]@ == self@.tasks.arena[t as int]);
        let token: u64 = self.tasks.arena[t].vm_token;
        let ghost k0 = self@;
        let now: u64 = self.clock.clk;
        if up > token {
            let need: u64 = (up - token) / PAGE_SZ;
            if (self.pool.free_count() as u64) < need {
                return Err("enomem");
            }
            let mut i: u64 = 0;
            while i < need
                invariant
                    self.wf(),
                    i <= need,
                    now == k0.clock.clk,
                    self@ == (KernelState {
                        pool: PoolState { slots: frames_taken(k0.pool.slots, now, i as nat), ..k0.pool },
                        ..k0
                    }),
                decreases need - i,
            {
                let ghost before = self@;
                let _ = frame_alloc(&mut self.pool, now);
                proof {
                    let s = before.pool.slots;
                    if !crate::memory::none_free(s) {
                        let x = choose|x: int| #[trigger]
                            crate::memory::first_free_from(s, crate::memory::reduced(now as int, s.len()), x)
                                && self.pool.slots@ == s.update(x, false);
                        lemma_next_frame(s, now, x);
                    }
                    let p1 = PoolState { slots: frames_taken(k0.pool.slots, now, (i + 1) as nat), ..k0.pool };
                    assert(self@.pool.frames =~= p1.frames);
                    assert(self@.pool =~= p1);
                    assert(self@ =~= (KernelState { pool: p1, ..k0 }));
                }
                i += 1;
            }
        }
        self.set_vm_token(t, up);
        assert(self@ =~= k0.sys_brk(end).k);
        Ok(up)
    }
}

/// Signals change neither files nor address spaces.
proof fn lemma_signalled_keeps(s: TableState, g: Seq<TaskRef>, signo: i32, sender: i64, n: int)
    requires
        0 <= n <= g.len(),
        forall|i: int| 0 <= i < g.len() ==> (#[trigger] g[i]) < s.arena.len(),
    ensures
        s.signalled(g, signo, sender, n).arena.len() == s.arena.len(),
        forall|i: int|
            0 <= i < s.arena.len() ==> (#[trigger] s.signalled(g, signo, sender, n).arena[i]).files == s.arena[i].files
                && s.signalled(g, signo, sender, n).arena[i].space == s.arena[i].space,
    decreases n,
{
    if n > 0 {
        lemma_signalled_keeps(s, g, signo, sender, n - 1);
    }
}

// ---------------------------------------------------------------------------------------------
// Calls that deal with descriptors
// ---------------------------------------------------------------------------------------------

/// Descriptors that are too high.
pub const FD_LIMIT: u64 = 1024;

/// The lowest free descriptor.
pub open spec fn lowest_fd(m: Map<u64, FRef>) -> u64 {
    choose|k: u64| crate::ipc::lowest_key(m, 0, k)
}

proof fn lemma_lowest_fd(m: Map<u64, FRef>, fd: u64)
    requires
        crate::ipc::lowest_key(m, 0, fd),
    ensures
        lowest_fd(m) == fd,
{
    let k = lowest_fd(m);
    assert(crate::ipc::lowest_key(m, 0, k));
    if k < fd {
        assert(m.dom().contains(k));
    } else if fd < k {
        assert(m.dom().contains(fd));
    }
}

/// The text of a path that was read from a user: up to a zero, or, where there is none, the prefix
/// with a number that the address gives.
pub open spec fn path_text(b: Seq<u8>, prefix: Seq<char>, addr: u64) -> Seq<char> {
    let t = crate::text::before_zero(b);
    if t.len() > 0 {
        crate::text::lossy_text(t)
    } else {
        prefix + crate::text::digits((addr % 256) as nat)
    }
}

/// How a file is opened.
pub open spec fn open_opt(flags: u64) -> FdOpt {
    FdOpt {
        rd: flags % 4 == 0 || flags % 4 == 2,
        wr: flags % 4 == 1 || flags % 4 == 2,
        ap: flag(flags, O_APPEND),
        nb: flag(flags, O_NONBLOCK),
    }
}

impl KernelState {
    /// Closes a descriptor of the running task.
    pub open spec fn sys_close(self, fd: u64) -> Outcome {
        let a = self.cur_state();
        if self.cur() is None {
            self.fails("esrch")
        } else if !a.files.dom().contains(fd) {
            self.fails("ebadf")
        } else {
            KernelState {
                heap: a.files[fd].closed(self.heap),
                ..self.with_task(self.cur()->0, TaskState { files: a.files.remove(fd), ..a })
            }.gives(0)
        }
    }

    /// Opens a pipe: the descriptor to read from in the low half, the one to write to in the high
    /// half.
    pub open spec fn sys_pipe(self, fds: u64) -> Outcome {
        let (ok, k) = self.reached(fds, 8, true);
        let m = k.cur_state().files;
        let rd = lowest_fd(m);
        let wr = lowest_fd(m.insert(rd, FRef::Pipe(PipeNode { data: k.heap.pipes.len() as usize, dir: PipeDir::Rd })));
        if fds == 0 {
            self.fails("efault")
        } else if !ok {
            k.fails("efault")
        } else if k.cur() is None {
            k.fails("esrch")
        } else if m.len() + 2 > N_PROC {
            k.fails("emfile")
        } else {
            k.piped(k.cur()->0, rd, wr).gives(rd | (wr << 32))
        }
    }

    /// Duplicates a descriptor to the lowest free one.
    pub open spec fn sys_dup(self, fd: u64) -> Outcome {
        let a = self.cur_state();
        let new = lowest_fd(a.files);
        if fd >= FD_LIMIT {
            self.fails("ebadf")
        } else if self.cur() is None {
            self.fails("esrch")
        } else if !a.files.dom().contains(fd) {
            self.fails("ebadf")
        } else {
            self.with_task(
                self.cur()->0,
                TaskState { files: a.files.insert(new, a.files[fd].duplicate(false)), ..a },
            ).gives(new)
        }
    }

    /// Duplicates a descriptor to `new`, which is closed first.
    pub open spec fn sys_dup2(self, fd: u64, new: u64) -> Outcome {
        let a = self.cur_state();
        let k = if a.files.dom().contains(new) {
            self.sys_close(new).k
        } else {
            self
        };
        let b = k.cur_state();
        if fd >= FD_LIMIT || new >= FD_LIMIT {
            self.fails("ebadf")
        } else if fd == new || self.cur() is None {
            self.gives(new)
        } else if !b.files.dom().contains(fd) {
            k.fails("ebadf")
        } else {
            k.with_task(
                k.cur()->0,
                TaskState { files: b.files.insert(new, b.files[fd].duplicate(false)), ..b },
            ).gives(new)
        }
    }

    /// What a read of file `f` of up to `count` bytes yields.
    pub open spec fn file_bytes(self, f: FileRef, count: u64) -> Seq<u8> {
        crate::fs::read_bytes(
            self.cache,
            self.disk,
            self.fs.inodes[f.ino],
            f.state(self.heap).off as int,
            count as int,
        )
    }

    /// Reads up to `count` bytes where file `f` stands to the user's `buf`.
    pub open spec fn read_file(self, f: FileRef, buf: u64, count: u64) -> Outcome {
        match self.fs.file_error(f.ino) {
            Some(e) => self.fails(e),
            None => {
                let off = f.state(self.heap).off;
                let data = self.file_bytes(f, count);
                let ks = crate::fs::read_blocks(self.fs.inodes[f.ino], off as int, count as int);
                let (cache, disk) = crate::fs::fetch_all(self.cache, self.disk, ks);
                let at = crate::utils::unsigned(crate::utils::signed(off) + data.len());
                if crate::fs::all_readable(self.cache, self.disk, ks) {
                    KernelState {
                        cache,
                        chains: crate::fs::fetch_lines(self.chains, self.cache, self.disk, ks),
                        disk,
                        heap: self.heap.with_off(f.desc as int, at),
                        ..self.with_poured(buf, data)
                    }.gives(data.len() as u64)
                } else {
                    KernelState { disk: self.disk.after_read(), ..self }.fails("io_error")
                }
            },
        }
    }

    /// The place behind what is read is a signed number.
    pub open spec fn readable(self, fd: u64, count: u64) -> bool {
        let a = self.cur_state();
        self.cur() is Some && a.files.dom().contains(fd) ==> (a.files[fd] matches FRef::File(f) ==> {
            let n = self.file_bytes(f, count).len();
            self.fs.file_error(f.ino) is None ==> n <= i64::MAX && crate::utils::signed(f.state(self.heap).off) + n <= i64::MAX
        })
    }

    /// Reads from a descriptor.
    pub open spec fn sys_read(self, fd: u64, buf: u64, count: u64) -> Outcome {
        let (ok, k) = self.reached(buf, count, true);
        let files = k.cur_state().files;
        if buf == 0 && count > 0 {
            self.fails("efault")
        } else if count == 0 {
            self.gives(0)
        } else if !ok {
            k.fails("efault")
        } else if k.cur() is None {
            k.fails("esrch")
        } else if !files.dom().contains(fd) {
            k.fails("ebadf")
        } else {
            match files[fd] {
                FRef::File(f) => k.read_file(f, buf, count),
                FRef::Pipe(_) => k.gives(0),
                FRef::Ep(_) => k.fails("enosys"),
            }
        }
    }

    /// Writes the user's `count` bytes at `buf` where file `f` stands.
    pub open spec fn write_file(self, f: FileRef, buf: u64, count: u64) -> Outcome {
        match self.fs.file_error(f.ino) {
            Some(e) => self.fails(e),
            None => {
                let off = f.state(self.heap).off;
                let data = self.user_bytes(buf, count as nat);
                let end = off + count;
                let n = (crate::fs::last_block(end) + 1) as nat;
                let fs = self.fs.grown(f.ino, n);
                let blocks = self.fs.grown_blocks(f.ino, n);
                let from = off as int / crate::fs::BLOCK_SZ as int;
                let span = crate::fs::span(off as int, count as int);
                let run = crate::fs::readable_run(self.cache, self.disk, blocks, from, span);
                let (cache, disk) = crate::fs::patch_all(self.cache, self.disk, blocks, from, run, off as int, data);
                let chains = crate::fs::patch_lines(
                    self.chains,
                    self.cache,
                    self.disk,
                    blocks,
                    from,
                    run,
                    off as int,
                    data,
                );
                if run == span {
                    KernelState {
                        cache,
                        chains,
                        disk,
                        fs: fs.lengthened(f.ino, end as u64),
                        heap: self.heap.with_off(f.desc as int, crate::utils::unsigned(crate::utils::signed(off) + count)),
                        ..self
                    }.gives(count)
                } else {
                    KernelState { cache, chains, disk: self.disk.after_read(), fs, ..self }.fails("io_error")
                }
            },
        }
    }

    /// The file can grow so far, and the place behind what is written is a signed number.
    pub open spec fn writable(self, fd: u64, count: u64) -> bool {
        let a = self.cur_state();
        count > 0 && self.cur() is Some && a.files.dom().contains(fd) ==> (a.files[fd] matches FRef::File(f) ==> {
            let off = f.state(self.heap).off;
            let last = crate::fs::last_block(off + count);
            &&& count <= usize::MAX
            &&& self.fs.file_error(f.ino) is None ==> {
                &&& off + count <= u64::MAX
                &&& last < usize::MAX
                &&& self.fs.next_blk + last + 1 - self.fs.inodes[f.ino].blocks.len() <= u64::MAX
                &&& count <= i64::MAX
                &&& crate::utils::signed(off) + count <= i64::MAX
            }
        })
    }

    /// Writes to a descriptor.
    pub open spec fn sys_write(self, fd: u64, buf: u64, count: u64) -> Outcome {
        let (ok, k) = self.reached(buf, count, false);
        let files = k.cur_state().files;
        if buf == 0 && count > 0 {
            self.fails("efault")
        } else if count == 0 {
            self.gives(0)
        } else if !ok {
            k.fails("efault")
        } else if k.cur() is None {
            k.fails("esrch")
        } else if !files.dom().contains(fd) {
            k.fails("ebadf")
        } else {
            match files[fd] {
                FRef::File(f) => k.write_file(f, buf, count),
                FRef::Pipe(p) => KernelState {
                    heap: if p.dir == PipeDir::Wr {
                        k.heap.with_pipe(p.data as int, p.pipe(k.heap).after_write(Seq::empty()))
                    } else {
                        k.heap
                    },
                    ..k
                }.gives(0),
                FRef::Ep(_) => k.fails("enosys"),
            }
        }
    }

    /// Gives the running task a descriptor of inode `ino`, which is emptied if that is asked for.
    pub open spec fn opened(self, ino: u64, path: Seq<char>, flags: u64) -> Outcome {
        let cut = flag(flags, 0o1000) && open_opt(flags).wr;
        let k = KernelState {
            fs: if cut {
                self.fs.truncated(ino, 0)
            } else {
                self.fs
            },
            ..self
        };
        let a = k.cur_state();
        let fd = lowest_fd(a.files);
        let f = FRef::File(
            FileRef {
                path,
                ino,
                data: k.heap.datas.len() as usize,
                desc: k.heap.descs.len() as usize,
                pipe: false,
                cloexec: flag(flags, O_CLOEXEC),
            },
        );
        if cut && !self.fs.inodes.dom().contains(ino) {
            self.fails("enoent")
        } else if k.cur() is None {
            k.fails("esrch")
        } else {
            KernelState {
                heap: HeapState {
                    datas: k.heap.datas.push(Seq::empty()),
                    descs: k.heap.descs.push(FdState { off: 0, opt: open_opt(flags), flk: 0 }),
                    ..k.heap
                },
                ..k.with_task(k.cur()->0, TaskState { files: a.files.insert(fd, f), ..a })
            }.gives(fd)
        }
    }

    /// Opens the file under `path`, which is made where it is missing and that is asked for.
    pub open spec fn open_at(self, path: Seq<char>, flags: u64) -> Outcome {
        let create = flag(flags, 0o100);
        match self.fs.lookup(path) {
            Err(e) => self.fails(e),
            Ok(l) => if l.ino != NO_INO {
                if create && flag(flags, 0o200) {
                    self.fails("eexist")
                } else {
                    self.opened(l.ino, path, flags)
                }
            } else if !create {
                self.fails("enoent")
            } else {
                match self.fs.dir_error(l.parent_ino) {
                    Some(e) => KernelState { fs: self.fs.took_ino(), ..self }.fails(e),
                    None => KernelState {
                        fs: self.fs.created(l.parent_ino, l.name, InodeType::File),
                        ..self
                    }.opened(self.fs.next_ino, path, flags),
                }
            },
        }
    }

    /// Opens the file whose path the user has at `path`.
    pub open spec fn sys_open(self, path: u64, flags: u64) -> Outcome {
        let (ok, k) = self.reached(path, PATH_SZ, false);
        if path == 0 {
            self.fails("efault")
        } else if !ok {
            k.fails("efault")
        } else if k.cur() is None {
            k.fails("esrch")
        } else {
            k.open_at(path_text(k.user_bytes(path, PATH_SZ as nat), "/file_"@, path), flags)
        }
    }

    /// Makes a directory.
    pub open spec fn mkdir_at(self, path: Seq<char>) -> Outcome {
        match self.fs.lookup(path) {
            Err(e) => self.fails(e),
            Ok(l) => if l.ino != NO_INO {
                self.fails("eexist")
            } else {
                match self.fs.dir_error(l.parent_ino) {
                    Some(e) => KernelState { fs: self.fs.took_ino(), ..self }.fails(e),
                    None => if self.fs.inodes[l.parent_ino].children.dom().contains(l.name) {
                        KernelState { fs: self.fs.took_ino(), ..self }.fails("eexist")
                    } else {
                        KernelState {
                            fs: self.fs.created(l.parent_ino, l.name, InodeType::Directory),
                            ..self
                        }.gives(0)
                    },
                }
            },
        }
    }

    /// Makes a directory under the path that the user has at `path`.
    pub open spec fn sys_mkdir(self, path: u64) -> Outcome {
        if self.cur() is None {
            self.fails("esrch")
        } else {
            self.mkdir_at(path_text(self.user_bytes(path, PATH_SZ as nat), "/dir_"@, path))
        }
    }

    /// Deletes a file.
    pub open spec fn unlink_at(self, path: Seq<char>) -> Outcome {
        match self.fs.lookup(path) {
            Err(e) => self.fails(e),
            Ok(l) => if l.ino == NO_INO {
                self.fails("enoent")
            } else {
                match self.fs.dir_error(l.parent_ino) {
                    Some(e) => self.fails(e),
                    None => if self.fs.inodes[l.parent_ino].children.dom().contains(l.name) {
                        KernelState { fs: self.fs.unlinked(l.parent_ino, l.name), ..self }.gives(0)
                    } else {
                        self.fails("enoent")
                    },
                }
            },
        }
    }

    /// Deletes the file whose path the user has at `path`.
    pub open spec fn sys_unlink(self, path: u64) -> Outcome {
        if self.cur() is None {
            self.fails("esrch")
        } else {
            self.unlink_at(path_text(self.user_bytes(path, PATH_SZ as nat), "/file_"@, path))
        }
    }
}

/// Seeing to a page changes only the running task's memory.
pub proof fn lemma_faulted_keeps(k: KernelState, addr: u64, writing: bool)
    requires
        k.cur() matches Some(t) ==> t < k.tasks.arena.len(),
        k.cpus.len() > 0,
    ensures
        ({
            let k2 = k.faulted(addr, writing).1;
            &&& k2 == (KernelState { tasks: k2.tasks, pool: k2.pool, ..k })
            &&& k2.tasks == (TableState { arena: k2.tasks.arena, ..k.tasks })
            &&& k2.tasks.arena.len() == k.tasks.arena.len()
            &&& forall|i: int|
                0 <= i < k.tasks.arena.len() ==> (#[trigger] k2.tasks.arena[i]) == (TaskState {
                    space: k2.tasks.arena[i].space,
                    ..k.tasks.arena[i]
                })
        }),
{
}

/// Seeing to several pages, too.
pub proof fn lemma_pages_keep(k: KernelState, addr: int, n: nat, writing: bool)
    requires
        k.cur() matches Some(t) ==> t < k.tasks.arena.len(),
        k.cpus.len() > 0,
    ensures
        ({
            let k2 = k.faulted_pages(addr, n, writing).1;
            &&& k2 == (KernelState { tasks: k2.tasks, pool: k2.pool, ..k })
            &&& k2.tasks == (TableState { arena: k2.tasks.arena, ..k.tasks })
            &&& k2.tasks.arena.len() == k.tasks.arena.len()
            &&& forall|i: int|
                0 <= i < k.tasks.arena.len() ==> (#[trigger] k2.tasks.arena[i]) == (TaskState {
                    space: k2.tasks.arena[i].space,
                    ..k.tasks.arena[i]
                })
        }),
    decreases n,
{
    if n > 0 {
        lemma_faulted_keeps(k, addr as u64, writing);
        let (ok, k1) = k.faulted(addr as u64, writing);
        if ok {
            lemma_pages_keep(k1, addr + PAGE_SZ, (n - 1) as nat, writing);
            let k2 = k.faulted_pages(addr, n, writing).1;
            assert forall|i: int| 0 <= i < k.tasks.arena.len() implies (#[trigger] k2.tasks.arena[i]) == (TaskState {
                space: k2.tasks.arena[i].space,
                ..k.tasks.arena[i]
            }) by {
                assert(k1.tasks.arena[i] == (TaskState { space: k1.tasks.arena[i].space, ..k.tasks.arena[i] }));
            }
        }
    }
}

/// When a call looks at a user's memory, all tasks keep everything but their memory, and nothing
/// else changes but the frames.
pub proof fn law_reaching_keeps(k: KernelState, addr: u64, len: u64, writing: bool)
    requires
        k.sound(),
    ensures
        ({
            let k2 = k.reached(addr, len, writing).1;
            &&& k2 == (KernelState { tasks: k2.tasks, pool: k2.pool, ..k })
            &&& k2.tasks == (TableState { arena: k2.tasks.arena, ..k.tasks })
            &&& k2.tasks.arena.len() == k.tasks.arena.len()
            &&& forall|i: int|
                0 <= i < k.tasks.arena.len() ==> (#[trigger] k2.tasks.arena[i]) == (TaskState {
                    space: k2.tasks.arena[i].space,
                    ..k.tasks.arena[i]
                })
        }),
{
    if user_range(addr, len) && len > 0 {
        let first = crate::address_space::page_of(addr);
        let last = crate::address_space::page_of((addr + len - 1) as u64);
        lemma_pages_keep(k, first as int, ((last - first) / PAGE_SZ as int + 1) as nat, writing);
    }
}

impl Kernel {
    /// Closes a descriptor.
    pub fn sys_close(&mut self, fd: u64) -> (r: Result<u64, &'static str>)
        requires
            old(self).wf(),
            old(self)@.can_close(fd),
        ensures
            final(self).wf(),
            (Outcome { r, k: final(self)@ }) == old(self)@.sys_close(fd),
    {
        let t: usize = match self.cur_task(0) {
            Some(t) => t,
            None => {
                return Err("esrch");
            },
        };
        let ghost k0 = self@;
        let ghost a = k0.tasks.arena[t as int];
        assert(self.tasks.arena@[t as int]@ == a);
        assert(a.valid(k0.heap) && crate::kernel_struct::frames_in(a.space, k0.pool.slots.len()));
        let r = self.tasks.arena[t].close_fd(&mut self.heap, fd);
        proof {
            let b = TaskState { files: a.files.remove(fd), ..a };
            assert(self.tasks.arena@[t as int]@ =~= b);
            assert(self.tasks@ =~= k0.tasks.with(t, b));
            crate::kernel_struct::lemma_task_changed(k0, self@, t, b);
            if r is Err {
                assert(a.files.remove(fd) =~= a.files);
                assert(b =~= a);
                assert(k0.tasks.with(t, a).arena =~= k0.tasks.arena);
            }
            assert(self@ =~= k0.sys_close(fd).k);
        }
        match r {
            Ok(_) => Ok(0),
            Err(e) => Err(e),
        }
    }

    /// Opens a pipe.
    pub fn sys_pipe(&mut self, fds: u64) -> (r: Result<u64, &'static str>)
        requires
            old(self).wf(),
        ensures
            final(self).wf(),
            (Outcome { r, k: final(self)@ }) == old(self)@.sys_pipe(fds),
    {
        if fds == 0 || !self.reach(fds, 8, true) {
            return Err("efault");
        }
        let ghost k = self@;
        let t: usize = match self.cur_task(0) {
            Some(t) => t,
            None => {
                return Err("esrch");
            },
        };
        assert(self.tasks.arena@[t as int]@ == self@.tasks.arena[t as int]);
        if self.tasks.arena[t].fd_count() > N_PROC - 2 {
            return Err("emfile");
        }
        let (rd, wr) = self.open_pipe(t);
        proof {
            let m = k.cur_state().files;
            let x = FRef::Pipe(PipeNode { data: k.heap.pipes.len() as usize, dir: PipeDir::Rd });
            lemma_lowest_fd(m, rd);
            assert forall|q: u64| 0 <= q < wr implies m.insert(rd, x).dom().contains(q) by {
                if q < rd {
                    assert(m.dom().contains(q));
                } else if q > rd {
                    assert(m.dom().contains(q));
                }
            }
            lemma_lowest_fd(m.insert(rd, x), wr);
        }
        Ok(rd | (wr << 32))
    }

    /// Duplicates a descriptor.
    pub fn sys_dup(&mut self, fd: u64) -> (r: Result<u64, &'static str>)
        requires
            old(self).wf(),
        ensures
            final(self).wf(),
            (Outcome { r, k: final(self)@ }) == old(self)@.sys_dup(fd),
    {
        if fd >= FD_LIMIT {
            return Err("ebadf");
        }
        let t: usize = match self.cur_task(0) {
            Some(t) => t,
            None => {
                return Err("esrch");
            },
        };
        let ghost k0 = self@;
        let ghost a = k0.tasks.arena[t as int];
        assert(self.tasks.arena@[t as int]@ == a);
        assert(a.valid(k0.heap) && crate::kernel_struct::frames_in(a.space, k0.pool.slots.len()));
        let r = self.tasks.arena[t].dup_fd(fd, false);
        proof {
            let b = self.tasks.arena@[t as int]@;
            assert(self.tasks@ =~= k0.tasks.with(t, b));
            if r is Ok {
                lemma_lowest_fd(a.files, r->Ok_0);
                assert(a.files[fd].refers(k0.heap));
                assert forall|q: u64| #[trigger] b.files.dom().contains(q) implies b.files[q].refers(k0.heap) by {
                    if q != r->Ok_0 {
                        assert(a.files.dom().contains(q));
                    }
                }
            } else {
                assert(k0.tasks.with(t, a).arena =~= k0.tasks.arena);
            }
            crate::kernel_struct::lemma_task_changed(k0, self@, t, b);
            assert(self@ =~= k0.sys_dup(fd).k);
        }
        r
    }

    /// Duplicates a descriptor to a given one.
    pub fn sys_dup2(&mut self, fd: u64, new: u64) -> (r: Result<u64, &'static str>)
        requires
            old(self).wf(),
            old(self)@.can_close(new),
        ensures
            final(self).wf(),
            (Outcome { r, k: final(self)@ }) == old(self)@.sys_dup2(fd, new),
    {
        if fd >= FD_LIMIT || new >= FD_LIMIT {
            return Err("ebadf");
        }
        if fd == new {
            return Ok(new);
        }
        let t: usize = match self.cur_task(0) {
            Some(t) => t,
            None => {
                return Ok(new);
            },
        };
        let ghost k00 = self@;
        let _ = self.sys_close(new);
        let ghost k0 = self@;
        proof {
            if !k00.cur_state().files.dom().contains(new) {
                assert(k0 == k00);
            }
        }
        let ghost a = k0.tasks.arena[t as int];
        assert(self.tasks.arena@[t as int]@ == a);
        assert(a.valid(k0.heap) && crate::kernel_struct::frames_in(a.space, k0.pool.slots.len()));
        assert(!a.files.dom().contains(new));
        let r = self.tasks.arena[t].dup2_fd(&mut self.heap, fd, new);
        proof {
            let b = self.tasks.arena@[t as int]@;
            assert(self.tasks@ =~= k0.tasks.with(t, b));
            if r is Ok {
                assert(a.files[fd].refers(k0.heap));
                assert forall|q: u64| #[trigger] b.files.dom().contains(q) implies b.files[q].refers(k0.heap) by {
                    if q != new {
                        assert(a.files.dom().contains(q));
                    }
                }
            } else {
                assert(k0.tasks.with(t, a).arena =~= k0.tasks.arena);
            }
            crate::kernel_struct::lemma_task_changed(k0, self@, t, b);
            assert(self@ =~= k00.sys_dup2(fd, new).k);
        }
        r
    }
}

impl KernelState {
    /// If the descriptor is of a pipe, another handle of the pipe can be closed.
    pub open spec fn can_close(self, fd: u64) -> bool {
        self.cur() is Some && self.cur_state().files.dom().contains(fd) ==> self.cur_state().files[fd].closable(self.heap)
    }
}

impl Kernel {
    /// Reads from a descriptor.
    pub fn sys_read(&mut self, fd: u64, buf: u64, count: u64) -> (r: Result<u64, &'static str>)
        requires
            old(self).wf(),
            old(self)@.readable(fd, count),
        ensures
            final(self).wf(),
            (Outcome { r, k: final(self)@ }) == old(self)@.sys_read(fd, buf, count),
    {
        if buf == 0 && count > 0 {
            return Err("efault");
        }
        if count == 0 {
            return Ok(0);
        }
        proof {
            law_reaching_keeps(self@, buf, count, true);
        }
        if !self.reach(buf, count, true) {
            return Err("efault");
        }
        let ghost k = self@;
        let t: usize = match self.cur_task(0) {
            Some(t) => t,
            None => {
                return Err("esrch");
            },
        };
        let ghost a = k.tasks.arena[t as int];
        assert(self.tasks.arena@[t as int]@ == a);
        assert(a.valid(k.heap));
        match self.tasks.arena[t].get_file(fd) {
            Some(FLike::File(fh)) => {
                let ghost f = fh@;
                assert(a.files[fd] == FRef::File(f));
                assert(f.valid(k.heap));
                assert(self.heap.descs@[fh.desc as int] == k.heap.descs[f.desc as int]);
                let off: u64 = self.heap.descs[fh.desc].off;
                let data = match self.fs.read_data(fh.ino, off, count, &mut self.cache, &mut self.disk) {
                    Ok(d) => d,
                    Err(e) => {
                        assert(self@ =~= k.read_file(f, buf, count).k);
                        return Err(e);
                    },
                };
                let n = data.len();
                assert(data@ == k.file_bytes(f, count));
                let _ = fh.seek(&mut self.heap, FSeek::Cur(n as i64));
                let ghost mid = self@;
                proof {
                    assert(mid.sound()) by {
                        assert(crate::task::same_extent(k.heap, mid.heap));
                        lemma_heap_swapped(k, mid);
                    }
                }
                let _ = self.copy_to_user(buf, data.as_slice());
                assert(self@ =~= k.read_file(f, buf, count).k);
                Ok(n as u64)
            },
            Some(FLike::Pipe(_)) => Ok(0),
            Some(FLike::Ep(_)) => Err("enosys"),
            None => Err("ebadf"),
        }
    }

    /// Writes to a descriptor.
    pub fn sys_write(&mut self, fd: u64, buf: u64, count: u64) -> (r: Result<u64, &'static str>)
        requires
            old(self).wf(),
            old(self)@.writable(fd, count),
        ensures
            final(self).wf(),
            (Outcome { r, k: final(self)@ }) == old(self)@.sys_write(fd, buf, count),
    {
        if buf == 0 && count > 0 {
            return Err("efault");
        }
        if count == 0 {
            return Ok(0);
        }
        proof {
            law_reaching_keeps(self@, buf, count, false);
        }
        if !self.reach(buf, count, false) {
            return Err("efault");
        }
        let ghost k = self@;
        let t: usize = match self.cur_task(0) {
            Some(t) => t,
            None => {
                return Err("esrch");
            },
        };
        let ghost a = k.tasks.arena[t as int];
        assert(self.tasks.arena@[t as int]@ == a);
        assert(a.valid(k.heap));
        match self.tasks.arena[t].get_file(fd) {
            Some(FLike::File(fh)) => {
                let ghost f = fh@;
                assert(a.files[fd] == FRef::File(f));
                assert(f.valid(k.heap));
                assert(self.heap.descs@[fh.desc as int] == k.heap.descs[f.desc as int]);
                let off: u64 = self.heap.descs[fh.desc].off;
                let mut data: Vec<u8> = zeros(count as usize);
                let _ = self.copy_from_user(buf, data.as_mut_slice());
                assert(data@ =~= k.user_bytes(buf, count as nat));
                match self.fs.write_data(fh.ino, off, data.as_slice(), &mut self.cache, &mut self.disk) {
                    Ok(_) => {},
                    Err(e) => {
                        assert(self@ =~= k.write_file(f, buf, count).k);
                        return Err(e);
                    },
                }
                let _ = fh.seek(&mut self.heap, FSeek::Cur(count as i64));
                proof {
                    assert(crate::task::same_extent(k.heap, self@.heap));
                    lemma_heap_swapped(k, self@);
                    assert(self@ =~= k.write_file(f, buf, count).k);
                }
                Ok(count)
            },
            Some(FLike::Pipe(p)) => {
                assert(a.files[fd] == FRef::Pipe(*p));
                assert(a.files[fd].refers(k.heap));
                let none: Vec<u8> = Vec::new();
                let _ = p.write_at(&mut self.heap, none.as_slice());
                proof {
                    assert(none@ =~= Seq::<u8>::empty());
                    assert(crate::task::same_extent(k.heap, self@.heap));
                    lemma_heap_swapped(k, self@);
                    let h2 = if p.dir == PipeDir::Wr {
                        k.heap.with_pipe(p.data as int, p.pipe(k.heap).after_write(Seq::empty()))
                    } else {
                        k.heap
                    };
                    assert(self@ =~= (KernelState { heap: h2, ..k }));
                }
                Ok(0)
            },
            Some(FLike::Ep(_)) => Err("enosys"),
            None => Err("ebadf"),
        }
    }
}

/// The kernel stays sound when what is shared changes.
proof fn lemma_heap_swapped(k0: KernelState, k1: KernelState)
    requires
        k0.sound(),
        k1.tasks == k0.tasks,
        k1.cpus == k0.cpus,
        k1.pool.slots.len() == k0.pool.slots.len(),
        crate::task::same_extent(k0.heap, k1.heap),
    ensures
        k1.sound(),
{
    assert forall|i: int| 0 <= i < k1.tasks.arena.len() implies (#[trigger] k1.tasks.arena[i]).valid(k1.heap) by {
        assert(k0.tasks.arena[i].valid(k0.heap));
    }
}

/// `n` zeros.
fn zeros(n: usize) -> (v: Vec<u8>)
    ensures
        v@ == Seq::new(n as nat, |i: int| 0u8),
{
    let v: Vec<u8> = vec![0u8; n];
    assert(v@ =~= Seq::new(n as nat, |i: int| 0u8));
    v
}

impl Kernel {
    /// The text of the path that the running task has at `addr`.
    fn read_path(&self, addr: u64, prefix: &str) -> (s: String)
        requires
            self.wf(),
            self@.cur() is Some,
            addr + PATH_SZ <= u64::MAX + 1,
        ensures
            s@ == path_text(self@.user_bytes(addr, PATH_SZ as nat), prefix@, addr),
    {
        let mut b: Vec<u8> = zeros(PATH_SZ as usize);
        let _ = self.copy_from_user(addr, b.as_mut_slice());
        assert(b@ =~= self@.user_bytes(addr, PATH_SZ as nat));
        let t = up_to_zero(&b);
        if t.len() > 0 {
            text_lossy(t.as_slice())
        } else {
            numbered(prefix, addr % 256)
        }
    }

    /// Gives the running task a descriptor of an inode.
    fn open_ino(&mut self, ino: u64, path: &str, flags: u64) -> (r: Result<u64, &'static str>)
        requires
            old(self).wf(),
        ensures
            final(self).wf(),
            (Outcome { r, k: final(self)@ }) == old(self)@.opened(ino, path@, flags),
    {
        let mode: u64 = flags % 4;
        let opt = FdOpt {
            rd: mode == 0 || mode == 2,
            wr: mode == 1 || mode == 2,
            ap: flags / O_APPEND % 2 == 1,
            nb: flags / O_NONBLOCK % 2 == 1,
        };
        let cut = flags / 0o1000 % 2 == 1 && opt.wr;
        let ghost k00 = self@;
        if cut {
            match self.fs.truncate(ino, 0) {
                Ok(_) => {},
                Err(e) => {
                    return Err(e);
                },
            }
        }
        let ghost k = self@;
        assert(k.sound());
        let t: usize = match self.cur_task(0) {
            Some(t) => t,
            None => {
                return Err("esrch");
            },
        };
        let ghost a = k.tasks.arena[t as int];
        assert(self.tasks.arena@[t as int]@ == a);
        assert(a.valid(k.heap) && crate::kernel_struct::frames_in(a.space, k.pool.slots.len()));
        let mut fh = FHandle::new(&mut self.heap, path, opt, false, false);
        fh.cloexec = flags / O_CLOEXEC % 2 == 1;
        fh.ino = ino;
        let ghost f = FRef::File(fh@);
        let fd: u64 = self.tasks.arena[t].add_file(FLike::File(fh));
        proof {
            let b = TaskState { files: a.files.insert(fd, f), ..a };
            lemma_lowest_fd(a.files, fd);
            assert(self.tasks.arena@[t as int]@ =~= b);
            assert(self.tasks@ =~= k.tasks.with(t, b));
            assert forall|q: u64| #[trigger] b.files.dom().contains(q) implies b.files[q].refers(self@.heap) by {
                if q != fd {
                    assert(a.files.dom().contains(q));
                }
            }
            crate::kernel_struct::lemma_task_changed(k, self@, t, b);
            assert(self@ =~= k00.opened(ino, path@, flags).k);
        }
        Ok(fd)
    }

    /// Opens the file under `path`.
    pub fn open_at(&mut self, path: &str, flags: u64) -> (r: Result<u64, &'static str>)
        requires
            old(self).wf(),
            flag(flags, 0o100) && old(self)@.fs.missing(path@) ==> old(self)@.fs.next_ino < u64::MAX,
        ensures
            final(self).wf(),
            (Outcome { r, k: final(self)@ }) == old(self)@.open_at(path@, flags),
    {
        let create = flags / 0o100 % 2 == 1;
        let l = match self.fs.lookup(path) {
            Ok(l) => l,
            Err(e) => {
                return Err(e);
            },
        };
        if l.ino != NO_INO {
            if create && flags / 0o200 % 2 == 1 {
                return Err("eexist");
            }
            return self.open_ino(l.ino, path, flags);
        }
        if !create {
            return Err("enoent");
        }
        match self.fs.create_file(l.parent_ino, l.name.as_str()) {
            Ok(ino) => self.open_ino(ino, path, flags),
            Err(e) => Err(e),
        }
    }

    /// Opens the file whose path the running task has at `path`.
    pub fn sys_open(&mut self, path: u64, flags: u64) -> (r: Result<u64, &'static str>)
        requires
            old(self).wf(),
            flag(flags, 0o100) && old(self)@.cur() is Some ==> old(self)@.fs.next_ino < u64::MAX,
        ensures
            final(self).wf(),
            (Outcome { r, k: final(self)@ }) == old(self)@.sys_open(path, flags),
    {
        proof {
            law_reaching_keeps(self@, path, PATH_SZ, false);
        }
        if path == 0 || !self.reach(path, PATH_SZ, false) {
            return Err("efault");
        }
        match self.cur_task(0) {
            Some(_) => {
                let text = self.read_path(path, "/file_");
                self.open_at(text.as_str(), flags)
            },
            None => Err("esrch"),
        }
    }

    /// Makes a directory.
    pub fn mkdir_at(&mut self, path: &str) -> (r: Result<u64, &'static str>)
        requires
            old(self).wf(),
            old(self)@.fs.missing(path@) ==> old(self)@.fs.next_ino < u64::MAX,
        ensures
            final(self).wf(),
            (Outcome { r, k: final(self)@ }) == old(self)@.mkdir_at(path@),
    {
        let l = match self.fs.lookup(path) {
            Ok(l) => l,
            Err(e) => {
                return Err(e);
            },
        };
        if l.ino != NO_INO {
            return Err("eexist");
        }
        match self.fs.create_dir(l.parent_ino, l.name.as_str()) {
            Ok(_) => Ok(0),
            Err(e) => Err(e),
        }
    }

    /// Makes a directory under the path that the running task has at `path`.
    pub fn sys_mkdir(&mut self, path: u64) -> (r: Result<u64, &'static str>)
        requires
            old(self).wf(),
            old(self)@.cur() is Some ==> path + PATH_SZ <= u64::MAX + 1 && old(self)@.fs.next_ino < u64::MAX,
        ensures
            final(self).wf(),
            (Outcome { r, k: final(self)@ }) == old(self)@.sys_mkdir(path),
    {
        match self.cur_task(0) {
            Some(_) => {
                let text = self.read_path(path, "/dir_");
                self.mkdir_at(text.as_str())
            },
            None => Err("esrch"),
        }
    }

    /// Deletes a file.
    pub fn unlink_at(&mut self, path: &str) -> (r: Result<u64, &'static str>)
        requires
            old(self).wf(),
        ensures
            final(self).wf(),
            (Outcome { r, k: final(self)@ }) == old(self)@.unlink_at(path@),
    {
        let l = match self.fs.lookup(path) {
            Ok(l) => l,
            Err(e) => {
                return Err(e);
            },
        };
        if l.ino == NO_INO {
            return Err("enoent");
        }
        match self.fs.unlink(l.parent_ino, l.name.as_str()) {
            Ok(_) => Ok(0),
            Err(e) => Err(e),
        }
    }

    /// Deletes the file whose path the running task has at `path`.
    pub fn sys_unlink(&mut self, path: u64) -> (r: Result<u64, &'static str>)
        requires
            old(self).wf(),
            old(self)@.cur() is Some ==> path + PATH_SZ <= u64::MAX + 1,
        ensures
            final(self).wf(),
            (Outcome { r, k: final(self)@ }) == old(self)@.sys_unlink(path),
    {
        match self.cur_task(0) {
            Some(_) => {
                let text = self.read_path(path, "/file_");
                self.unlink_at(text.as_str())
            },
            None => Err("esrch"),
        }
    }
}

// ---------------------------------------------------------------------------------------------
// All calls
// ---------------------------------------------------------------------------------------------

impl KernelState {
    /// What call `nr` does with its arguments.
    pub open spec fn syscall(self, nr: u64, a0: u64, a1: u64, a2: u64, a3: u64, a4: u64, a5: u64) -> Outcome {
        if nr == SYS_READ {
            self.sys_read(a0, a1, a2)
        } else if nr == SYS_WRITE {
            self.sys_write(a0, a1, a2)
        } else if nr == SYS_OPEN {
            self.sys_open(a0, a1)
        } else if nr == SYS_CLOSE {
            self.sys_close(a0)
        } else if nr == SYS_STAT {
            self.sys_stat(a0, a1)
        } else if nr == SYS_FSTAT {
            self.sys_fstat(a1)
        } else if nr == SYS_MMAP {
            self.sys_mmap(a0, a1, a3, a4, a5)
        } else if nr == SYS_MUNMAP {
            self.sys_munmap(a0)
        } else if nr == SYS_BRK {
            self.sys_brk(a0)
        } else if nr == SYS_IOCTL {
            self.sys_ioctl(a1, a2)
        } else if nr == SYS_PIPE {
            self.sys_pipe(a0)
        } else if nr == SYS_DUP {
            self.sys_dup(a0)
        } else if nr == SYS_DUP2 {
            self.sys_dup2(a0, a1)
        } else if nr == SYS_FORK {
            self.sys_fork()
        } else if nr == SYS_EXEC {
            self.sys_exec(a0, a1, a2)
        } else if nr == SYS_EXIT {
            self.sys_exit(a0)
        } else if nr == SYS_WAIT4 {
            self.sys_wait4(a0, a1, a2, a3)
        } else if nr == SYS_KILL {
            self.sys_kill(a0, a1)
        } else if nr == SYS_FCNTL {
            self.sys_fcntl(a0, a1, a2)
        } else if nr == SYS_GETPID {
            self.sys_getpid()
        } else if nr == SYS_GETPPID {
            self.sys_getppid()
        } else if nr == SYS_SETPGID {
            self.sys_setpgid(a0, a1)
        } else if nr == SYS_GETPGID {
            self.sys_getpgid(a0)
        } else if nr == SYS_SETSID {
            self.sys_setsid()
        } else if nr == SYS_EPOLL_CREATE {
            self.sys_epoll_create(a0)
        } else if nr == SYS_EPOLL_CTL {
            self.sys_epoll_ctl(a1, a3)
        } else if nr == SYS_EPOLL_WAIT {
            self.sys_epoll_wait(a1, a2)
        } else if nr == SYS_CLOCK_GETTIME {
            self.sys_clock_gettime(a0, a1)
        } else if nr == SYS_SIGACTION {
            self.sys_sigaction(a0, a1, a2)
        } else if nr == SYS_SIGPROCMASK {
            self.sys_sigprocmask(a0, a1, a2)
        } else if nr == SYS_FUTEX {
            self.sys_futex(a0, a1, a2, a3, a4, a5)
        } else if nr == SYS_MKDIR {
            self.sys_mkdir(a0)
        } else if nr == SYS_UNLINK {
            self.sys_unlink(a0)
        } else {
            self.fails("enosys")
        }
    }

    /// Nothing in call `nr` exceeds what a word or a table can hold.
    pub open spec fn admissible(self, nr: u64, a0: u64, a1: u64, a2: u64, a3: u64, a4: u64, a5: u64) -> bool {
        if nr == SYS_READ {
            self.readable(a0, a2)
        } else if nr == SYS_WRITE {
            self.writable(a0, a2)
        } else if nr == SYS_OPEN {
            flag(a1, 0o100) && self.cur() is Some ==> self.fs.next_ino < u64::MAX
        } else if nr == SYS_CLOSE {
            self.can_close(a0)
        } else if nr == SYS_MMAP {
            self.mappable(a0, a1, a3, a4)
        } else if nr == SYS_MUNMAP {
            self.unmappable(a0, a1)
        } else if nr == SYS_DUP2 {
            self.can_close(a1)
        } else if nr == SYS_FORK {
            self.forkable()
        } else if nr == SYS_EXIT {
            self.cur() is Some ==> crate::task::closable_times(self.heap, self.cur_state().files.len() as int)
        } else if nr == SYS_WAIT4 || nr == SYS_KILL {
            crate::utils::signed(a0) > i64::MIN
        } else if nr == SYS_FCNTL {
            self.controllable(a0, a1, a2)
        } else if nr == SYS_EPOLL_WAIT {
            self.waitable(a3)
        } else if nr == SYS_FUTEX {
            self.futex_fits(a1, a2, a5)
        } else if nr == SYS_MKDIR {
            self.cur() is Some ==> a0 + PATH_SZ <= u64::MAX + 1 && self.fs.next_ino < u64::MAX
        } else if nr == SYS_UNLINK {
            self.cur() is Some ==> a0 + PATH_SZ <= u64::MAX + 1
        } else {
            true
        }
    }
}

impl Kernel {
    /// Does what the running task asks for by call `nr` with up to six arguments; an unknown call
    /// is refused.
    pub fn dispatch_syscall(&mut self, nr: u64, a0: u64, a1: u64, a2: u64, a3: u64, a4: u64, a5: u64) -> (r: Result<
        u64,
        &'static str,
    >)
        requires
            old(self).wf(),
            old(self)@.admissible(nr, a0, a1, a2, a3, a4, a5),
        ensures
            final(self).wf(),
            (Outcome { r, k: final(self)@ }) == old(self)@.syscall(nr, a0, a1, a2, a3, a4, a5),
    {
        if nr == SYS_READ {
            self.sys_read(a0, a1, a2)
        } else if nr == SYS_WRITE {
            self.sys_write(a0, a1, a2)
        } else if nr == SYS_OPEN {
            self.sys_open(a0, a1)
        } else if nr == SYS_CLOSE {
            self.sys_close(a0)
        } else if nr == SYS_STAT {
            self.sys_stat(a0, a1)
        } else if nr == SYS_FSTAT {
            self.sys_fstat(a1)
        } else if nr == SYS_MMAP {
            self.sys_mmap(a0, a1, a3, a4, a5)
        } else if nr == SYS_MUNMAP {
            self.sys_munmap(a0, a1)
        } else if nr == SYS_BRK {
            self.sys_brk(a0)
        } else if nr == SYS_IOCTL {
            self.sys_ioctl(a1, a2)
        } else if nr == SYS_PIPE {
            self.sys_pipe(a0)
        } else if nr == SYS_DUP {
            self.sys_dup(a0)
        } else if nr == SYS_DUP2 {
            self.sys_dup2(a0, a1)
        } else if nr == SYS_FORK {
            self.sys_fork()
        } else if nr == SYS_EXEC {
            self.sys_exec(a0, a1, a2)
        } else if nr == SYS_EXIT {
            self.sys_exit(a0)
        } else if nr == SYS_WAIT4 {
            self.sys_wait4(a0, a1, a2, a3)
        } else if nr == SYS_KILL {
            self.sys_kill(a0, a1)
        } else if nr == SYS_FCNTL {
            self.sys_fcntl(a0, a1, a2)
        } else if nr == SYS_GETPID {
            self.sys_getpid()
        } else if nr == SYS_GETPPID {
            self.sys_getppid()
        } else if nr == SYS_SETPGID {
            self.sys_setpgid(a0, a1)
        } else if nr == SYS_GETPGID {
            self.sys_getpgid(a0)
        } else if nr == SYS_SETSID {
            self.sys_setsid()
        } else if nr == SYS_EPOLL_CREATE {
            self.sys_epoll_create(a0)
        } else if nr == SYS_EPOLL_CTL {
            self.sys_epoll_ctl(a1, a3)
        } else if nr == SYS_EPOLL_WAIT {
            self.sys_epoll_wait(a1, a2, a3)
        } else if nr == SYS_CLOCK_GETTIME {
            self.sys_clock_gettime(a0, a1)
        } else if nr == SYS_SIGACTION {
            self.sys_sigaction(a0, a1, a2)
        } else if nr == SYS_SIGPROCMASK {
            self.sys_sigprocmask(a0, a1, a2)
        } else if nr == SYS_FUTEX {
            self.sys_futex(a0, a1, a2, a3, a4, a5)
        } else if nr == SYS_MKDIR {
            self.sys_mkdir(a0)
        } else if nr == SYS_UNLINK {
            self.sys_unlink(a0)
        } else {
            Err("enosys")
        }
    }
}

// ---------------------------------------------------------------------------------------------
// Whether a call can be made
// ---------------------------------------------------------------------------------------------

impl Kernel {
    /// Whether the place behind what would be read is a signed number.
    fn admits_read(&self, fd: u64, count: u64) -> (ok: bool)
        requires
            self.wf(),
        ensures
            ok == self@.readable(fd, count),
    {
        let t: usize = match self.cur_task(0) {
            Some(t) => t,
            None => {
                return true;
            },
        };
        let ghost a = self@.tasks.arena[t as int];
        assert(self.tasks.arena@[t as int]@ == a);
        assert(a.valid(self@.heap));
        match self.tasks.arena[t].get_file(fd) {
            Some(FLike::File(fh)) => {
                assert(a.files[fd] == FRef::File(fh@));
                assert(a.files[fd].refers(self@.heap));
                assert(self.heap.descs@[fh.desc as int] == self@.heap.descs[fh.desc as int]);
                let off: u64 = self.heap.descs[fh.desc].off;
                match self.fs.inodes.get(fh.ino) {
                    Some(n) => {
                        if n.inode_type != InodeType::File {
                            return true;
                        }
                        assert(self@.fs.inodes[fh.ino] == n@);
                        let stored: u128 = n.blocks.len() as u128 * BLOCK_SZ as u128;
                        let end: u128 = if n.size as u128 <= stored {
                            n.size as u128
                        } else {
                            stored
                        };
                        let stop: u128 = if off as u128 + (count as u128) < end {
                            off as u128 + count as u128
                        } else {
                            end
                        };
                        let len: u128 = if stop > off as u128 {
                            stop - off as u128
                        } else {
                            0
                        };
                        assert(len == self@.file_bytes(fh@, count).len());
                        len <= i64::MAX as u128 && to_signed(off) as i128 + len as i128 <= i64::MAX as i128
                    },
                    None => true,
                }
            },
            _ => true,
        }
    }

    /// Whether the file can grow so far, and the place behind what would be written is a signed
    /// number.
    fn admits_write(&self, fd: u64, count: u64) -> (ok: bool)
        requires
            self.wf(),
        ensures
            ok == self@.writable(fd, count),
    {
        if count == 0 {
            return true;
        }
        let t: usize = match self.cur_task(0) {
            Some(t) => t,
            None => {
                return true;
            },
        };
        let ghost a = self@.tasks.arena[t as int];
        assert(self.tasks.arena@[t as int]@ == a);
        assert(a.valid(self@.heap));
        match self.tasks.arena[t].get_file(fd) {
            Some(FLike::File(fh)) => {
                assert(a.files[fd] == FRef::File(fh@));
                assert(a.files[fd].refers(self@.heap));
                assert(self.heap.descs@[fh.desc as int] == self@.heap.descs[fh.desc as int]);
                if count > usize::MAX as u64 {
                    return false;
                }
                let off: u64 = self.heap.descs[fh.desc].off;
                match self.fs.inodes.get(fh.ino) {
                    Some(n) => {
                        if n.inode_type != InodeType::File {
                            return true;
                        }
                        assert(self@.fs.inodes[fh.ino] == n@);
                        let end: u128 = off as u128 + count as u128;
                        let last: u128 = (end - 1) / BLOCK_SZ as u128;
                        assert(last == crate::fs::last_block(off + count));
                        end <= u64::MAX as u128 && last < usize::MAX as u128 && self.fs.next_blk as u128 + last + 1
                            <= u64::MAX as u128 + n.blocks.len() as u128 && count <= i64::MAX as u64 && to_signed(off) as i128 + count as i128
                            <= i64::MAX as i128
                    },
                    None => true,
                }
            },
            _ => true,
        }
    }

    /// Whether a descriptor can be closed.
    fn admits_close(&self, fd: u64) -> (ok: bool)
        requires
            self.wf(),
        ensures
            ok == self@.can_close(fd),
    {
        let t: usize = match self.cur_task(0) {
            Some(t) => t,
            None => {
                return true;
            },
        };
        let ghost a = self@.tasks.arena[t as int];
        assert(self.tasks.arena@[t as int]@ == a);
        assert(a.valid(self@.heap));
        match self.tasks.arena[t].get_file(fd) {
            Some(FLike::Pipe(p)) => {
                assert(a.files[fd] == FRef::Pipe(*p));
                assert(a.files[fd].refers(self@.heap));
                assert(self.heap.pipes@[p.data as int]@ == self@.heap.pipes[p.data as int]);
                self.heap.pipes[p.data].ends > i32::MIN
            },
            _ => true,
        }
    }

    /// Whether the running task can end.
    fn admits_exit(&self) -> (ok: bool)
        requires
            self.wf(),
        ensures
            ok == (self@.cur() is Some ==> crate::task::closable_times(
                self@.heap,
                self@.cur_state().files.len() as int,
            )),
    {
        let t: usize = match self.cur_task(0) {
            Some(t) => t,
            None => {
                return true;
            },
        };
        assert(self.tasks.arena@[t as int]@ == self@.tasks.arena[t as int]);
        let n: i128 = self.tasks.arena[t].fd_count() as i128;
        let mut i: usize = 0;
        while i < self.heap.pipes.len()
            invariant
                self.wf(),
                self@.cur() == Some(t),
                n == self@.cur_state().files.len(),
                n <= usize::MAX,
                i <= self.heap.pipes@.len(),
                forall|j: int| 0 <= j < i ==> (#[trigger] self@.heap.pipes[j]).ends - n >= i32::MIN,
            decreases self.heap.pipes@.len() - i,
        {
            assert(self.heap.pipes@[i as int]@ == self@.heap.pipes[i as int]);
            if self.heap.pipes[i].ends as i128 - n < i32::MIN as i128 {
                return false;
            }
            i += 1;
        }
        true
    }

    /// Whether call `nr` can be made: nothing in it exceeds what a word or a table can hold.
    pub fn admits(&self, nr: u64, a0: u64, a1: u64, a2: u64, a3: u64, a4: u64, a5: u64) -> (ok: bool)
        requires
            self.wf(),
        ensures
            ok == self@.admissible(nr, a0, a1, a2, a3, a4, a5),
    {
        let max: u128 = u64::MAX as u128;
        let page: u128 = PAGE_SZ as u128;
        if nr == SYS_READ {
            self.admits_read(a0, a2)
        } else if nr == SYS_WRITE {
            self.admits_write(a0, a2)
        } else if nr == SYS_OPEN {
            a1 / 0o100 % 2 != 1 || self.cur_task(0).is_none() || self.fs.next_ino < u64::MAX
        } else if nr == SYS_CLOSE {
            self.admits_close(a0)
        } else if nr == SYS_MMAP {
            let whole: u128 = (a1 as u128 + page - 1) / page * page;
            a1 == 0 || (a1 as u128 + page - 1 <= max && ((a0 != 0 && a3 / 0x10 % 2 == 1) || (whole < (KERN_BASE
                - MMAP_START) as u128 && self.clock.clk as u128 * page + a4 as u128 * page <= max)))
        } else if nr == SYS_MUNMAP {
            let whole: u128 = (a1 as u128 + page - 1) / page * page;
            a0 % PAGE_SZ != 0 || (a1 as u128 + page - 1 <= max && a0 as u128 + whole <= max + page)
        } else if nr == SYS_DUP2 {
            self.admits_close(a1)
        } else if nr == SYS_FORK {
            self.pool.free_count() as u64 <= N_FRAMES && 256 + self.tasks.count() as u128 * 2 <= max
        } else if nr == SYS_EXIT {
            self.admits_exit()
        } else if nr == SYS_WAIT4 || nr == SYS_KILL {
            to_signed(a0) > i64::MIN
        } else if nr == SYS_FCNTL {
            let base: u64 = if a0 > a2 {
                a0
            } else {
                a2
            };
            a0 >= FD_LIMIT || ((a1 != F_DUPFD || base as u128 + (self.clock.clk % 4) as u128 <= max) && (a1
                != F_DUPFD_CLOEXEC || base < u64::MAX))
        } else if nr == SYS_EPOLL_WAIT {
            let timeout: i32 = a3 as i32;
            timeout <= 0 || self.clock.clk as u128 + timeout as u128 * TIMER_TICK_HZ as u128 / 1000 <= max
        } else if nr == SYS_FUTEX {
            a1 % 16 != 3 || a2 as u128 + a5 as u128 <= max
        } else if nr == SYS_MKDIR {
            let running = self.cur_task(0).is_some();
            !running || (a0 as u128 + PATH_SZ as u128 <= max + 1 && self.fs.next_ino < u64::MAX)
        } else if nr == SYS_UNLINK {
            let running = self.cur_task(0).is_some();
            !running || a0 as u128 + PATH_SZ as u128 <= max + 1
        } else {
            true
        }
    }
}

} // verus!
