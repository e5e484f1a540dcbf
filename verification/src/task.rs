//! Tasks, and the table in which they are registered.
//!
//! Tasks refer to each other as parent and child, and a task may be registered under more than one
//! number. They live in an arena and are named by their place in it.

use vstd::prelude::*;
use crate::address_space::{AddrSpace, SpaceState};
use crate::consts::{USR_STK_OFF, USR_STK_SZ};
use crate::context::{Context, Registers};
use crate::files::{EpInst, EpRef, FHandle, FLike, FRef, FdOpt, FdState, FileHeap, FileRef, HeapState};
use crate::futex::{FutexBucket, FutexState};
use crate::ipc::{SemCtx, SemHeap, SemHeapState, ShmCtx, ShmHeap, ShmHeapState, ShmTag, Undo};
use crate::ordmap::OrdMap;
use crate::proc_init::ProcInit;
use crate::sync_queue::{EvBus, EvFlag, EvState};
use crate::text::same_str;
use crate::vm::KStk;

verus! {

/// Number of a thread.
pub type Tid = u64;

/// Number of a process group.
pub type Pgid = i32;

/// Place of a task in the arena.
pub type TaskRef = usize;

/// Number of a process.
#[derive(Clone, Copy, PartialEq, Eq, PartialOrd, Ord, Structural, Debug)]
pub struct Pid(pub u64);

impl Pid {
    /// Number of the first process.
    pub const INIT: u64 = 1;

    /// A number that is not assigned yet.
    pub fn new() -> (p: Self)
        ensures
            p == Pid(0),
    {
        Pid(0)
    }

    /// The number.
    pub fn get(&self) -> (n: u64)
        ensures
            n == self.0,
    {
        self.0
    }

    /// Whether this is the first process.
    pub fn is_init(&self) -> (r: bool)
        ensures
            r == (self.0 == 1),
    {
        self.0 == Self::INIT
    }
}

/// What is known of a task.
pub struct TaskInfo {
    /// Its number.
    pub id: u64,
    /// Its name.
    pub tag: String,
    /// How it ended, if it has.
    pub status: Option<i32>,
    /// Its open files, for reports.
    pub fds: Vec<String>,
}

/// What a thread needs to run.
#[derive(Clone, Copy, Debug)]
pub struct ThdCtx {
    /// Its registers.
    pub uctx: Context,
    /// Address of a word to be cleared when the thread ends.
    pub clear_tid: u64,
    /// Signals that it blocks.
    pub smask: u64,
}

/// What a thread needs to run, as values.
#[verifier::ext_equal]
pub struct ThdState {
    /// Its registers.
    pub regs: Registers,
    /// Address of a word to be cleared when the thread ends.
    pub clear_tid: u64,
    /// Signals that it blocks.
    pub smask: u64,
}

/// Registers that are all zero.
pub open spec fn zero_regs() -> Registers {
    Registers { r: Seq::new(crate::consts::N_REGS as nat, |i: int| 0u64), ip: 0, flags: 0 }
}

impl ThdState {
    /// Everything zero.
    pub open spec fn fresh() -> ThdState {
        ThdState { regs: zero_regs(), clear_tid: 0, smask: 0 }
    }
}

impl ThdCtx {
    /// The context as values.
    pub open spec fn view(&self) -> ThdState {
        ThdState { regs: self.uctx@, clear_tid: self.clear_tid, smask: self.smask }
    }
}

impl Default for ThdCtx {
    /// Everything zero.
    fn default() -> (c: Self)
        ensures
            c@ == ThdState::fresh(),
    {
        ThdCtx { uctx: Context::new(), clear_tid: 0, smask: 0 }
    }
}

/// A task: a process or a thread.
pub struct Task {
    /// What is known of it.
    pub info: TaskInfo,
    /// Its parent.
    pub parent: Option<TaskRef>,
    /// Its children.
    pub subtasks: Vec<TaskRef>,
    /// Its open files.
    pub files: OrdMap<FLike>,
    /// Its working directory.
    pub cwd: String,
    /// Path of its program.
    pub exec_path: String,
    /// Its futexes, by address.
    pub futexes: OrdMap<FutexBucket>,
    /// Its semaphores.
    pub sem_ctx: SemCtx,
    /// Its shared memories.
    pub shm_ctx: ShmCtx,
    /// Number of the process.
    pub pid: Pid,
    /// Number of the process group.
    pub pgid: Pgid,
    /// Its threads.
    pub threads: Vec<Tid>,
    /// Tells of what happens to it.
    pub ev: EvBus,
    /// Exit code.
    pub exit_code: u64,
    /// Signals that wait, each with the thread it is for, or -1.
    pub sig_queue: Vec<(i32, i64)>,
    /// Signals that it blocks.
    pub sig_mask: u64,
    /// Its epoll instances, by descriptor.
    pub ep_inst: OrdMap<EpInst>,
    /// Its kernel stack.
    pub kstk: Option<KStk>,
    /// What it needs to run, while it does not.
    pub thd_ctx: Option<ThdCtx>,
    /// End of its data.
    pub vm_token: u64,
    /// Its address space.
    pub addr_space: AddrSpace,
}

/// A task, as values.
#[verifier::ext_equal]
pub struct TaskState {
    pub id: u64,
    pub tag: Seq<char>,
    pub status: Option<i32>,
    pub fds: Seq<Seq<char>>,
    pub parent: Option<TaskRef>,
    pub subtasks: Seq<TaskRef>,
    pub files: Map<u64, FRef>,
    pub cwd: Seq<char>,
    pub exec_path: Seq<char>,
    pub futexes: Map<u64, FutexState>,
    pub sems: Map<u64, usize>,
    pub undos: Seq<Undo>,
    pub shms: Map<u64, ShmTag>,
    pub pid: Pid,
    pub pgid: Pgid,
    pub threads: Seq<Tid>,
    pub ev: EvState,
    pub exit_code: u64,
    pub sig_queue: Seq<(i32, i64)>,
    pub sig_mask: u64,
    pub ep_inst: Map<u64, EpRef>,
    pub kstk: Option<u64>,
    pub thd_ctx: Option<ThdState>,
    pub vm_token: u64,
    pub space: SpaceState,
}

/// What descriptors refer to.
pub open spec fn refs_of(m: Map<u64, FLike>) -> Map<u64, FRef> {
    m.map_values(|f: FLike| f@)
}

/// What descriptors refer to, in ascending order of the descriptors.
pub open spec fn open_refs(m: Map<u64, FRef>) -> Seq<FRef> {
    crate::seqs::sorted_keys(m).map_values(|k: u64| m[k])
}

/// What is shared after the first `n` of these handles have been closed.
pub open spec fn closed_all(h: HeapState, s: Seq<FRef>, n: int) -> HeapState
    decreases n,
{
    if n <= 0 {
        h
    } else {
        s[n - 1].closed(closed_all(h, s, n - 1))
    }
}

/// `n` more handles of each pipe can be closed.
pub open spec fn closable_times(h: HeapState, n: int) -> bool {
    forall|i: int| 0 <= i < h.pipes.len() ==> (#[trigger] h.pipes[i]).ends - n >= i32::MIN
}

/// Two heaps of the same extent.
pub open spec fn same_extent(a: HeapState, b: HeapState) -> bool {
    a.datas.len() == b.datas.len() && a.descs.len() == b.descs.len() && a.pipes.len() == b.pipes.len() && a.sets.len()
        == b.sets.len()
}

/// A signal that waits is for task `id` and is not blocked by `mask`.
pub open spec fn sig_counts(e: (i32, i64), id: u64, mask: u64) -> bool {
    (e.1 == -1 || crate::utils::unsigned(e.1 as int) == id) && 0 <= e.0 < 64 && !crate::utils::on(mask, e.0 as u32)
}

impl TaskState {
    /// A new task.
    pub open spec fn fresh(id: u64, tag: Seq<char>) -> TaskState {
        TaskState {
            id,
            tag,
            status: None,
            fds: Seq::empty(),
            parent: None,
            subtasks: Seq::empty(),
            files: Map::empty(),
            cwd: seq!['/'],
            exec_path: Seq::empty(),
            futexes: Map::empty(),
            sems: Map::empty(),
            undos: Seq::empty(),
            shms: Map::empty(),
            pid: Pid(0),
            pgid: 0,
            threads: Seq::empty(),
            ev: EvState::quiet(),
            exit_code: 0,
            sig_queue: Seq::empty(),
            sig_mask: 0,
            ep_inst: Map::empty(),
            kstk: None,
            thd_ctx: Some(ThdState::fresh()),
            vm_token: 0,
            space: SpaceState::fresh(0),
        }
    }

    /// The task's descriptors refer to something.
    pub open spec fn valid(self, h: HeapState) -> bool {
        forall|k: u64| #[trigger] self.files.dom().contains(k) ==> self.files[k].refers(h)
    }

    /// After a signal came in.
    pub open spec fn signalled(self, signo: i32, sender: i64) -> TaskState {
        TaskState {
            sig_queue: self.sig_queue.push((signo, sender)),
            ev: self.ev.changed_by(0, EvFlag::RECV_SIG),
            ..self
        }
    }
}

impl Task {
    /// The task as values.
    pub open spec fn view(&self) -> TaskState {
        TaskState {
            id: self.info.id,
            tag: self.info.tag@,
            status: self.info.status,
            fds: crate::text::texts(self.info.fds@),
            parent: self.parent,
            subtasks: self.subtasks@,
            files: refs_of(self.files@),
            cwd: self.cwd@,
            exec_path: self.exec_path@,
            futexes: self.futexes@.map_values(|b: FutexBucket| b@),
            sems: self.sem_ctx.arrays@,
            undos: self.sem_ctx.undos@,
            shms: self.shm_ctx.ids@,
            pid: self.pid,
            pgid: self.pgid,
            threads: self.threads@,
            ev: self.ev@,
            exit_code: self.exit_code,
            sig_queue: self.sig_queue@,
            sig_mask: self.sig_mask,
            ep_inst: self.ep_inst@.map_values(|e: EpInst| e@),
            kstk: match self.kstk {
                Some(k) => Some(k.low()),
                None => None,
            },
            thd_ctx: match self.thd_ctx {
                Some(c) => Some(c@),
                None => None,
            },
            vm_token: self.vm_token,
            space: self.addr_space@,
        }
    }

    /// What the task holds is well-formed.
    pub open spec fn wf(&self) -> bool {
        &&& self.files.wf()
        &&& forall|k: u64| #[trigger] self.files@.dom().contains(k) ==> self.files@[k].wf()
        &&& self.futexes.wf()
        &&& self.sem_ctx.wf()
        &&& self.shm_ctx.wf()
        &&& self.ep_inst.wf()
        &&& forall|k: u64| #[trigger] self.ep_inst@.dom().contains(k) ==> self.ep_inst@[k].events.wf()
        &&& self.addr_space.wf()
    }

    /// A new task.
    pub fn make(id: u64, tag: &str) -> (t: Self)
        ensures
            t.wf(),
            t@ == TaskState::fresh(id, tag@),
    {
        let t = Task {
            info: TaskInfo { id, tag: tag.to_owned(), status: None, fds: Vec::new() },
            parent: None,
            subtasks: Vec::new(),
            files: OrdMap::new(),
            cwd: "/".to_owned(),
            exec_path: "".to_owned(),
            futexes: OrdMap::new(),
            sem_ctx: SemCtx::new(),
            shm_ctx: ShmCtx::new(),
            pid: Pid::new(),
            pgid: 0,
            threads: Vec::new(),
            ev: EvBus::make(),
            exit_code: 0,
            sig_queue: Vec::new(),
            sig_mask: 0,
            ep_inst: OrdMap::new(),
            kstk: None,
            thd_ctx: Some(ThdCtx::default()),
            vm_token: 0,
            addr_space: AddrSpace::new(0),
        };
        proof {
            reveal_strlit("/");
            reveal_strlit("");
            t.files.lemma_key_seq();
            assert(t@.cwd =~= seq!['/']);
            assert(t@.exec_path =~= Seq::empty());
            assert(t@.fds =~= Seq::empty());
            assert(t@.files =~= Map::empty());
            assert(t@.futexes =~= Map::empty());
            assert(t@.ep_inst =~= Map::empty());
            assert(t@ =~= TaskState::fresh(id, tag@));
        }
        t
    }

    /// The number of the task.
    pub fn id(&self) -> (n: u64)
        ensures
            n == self@.id,
    {
        self.info.id
    }

    /// The name of the task.
    pub fn tag(&self) -> (s: String)
        ensures
            s@ == self@.tag,
    {
        self.info.tag.as_str().to_owned()
    }

    /// Sets the parent.
    pub fn link_parent(&mut self, p: TaskRef)
        requires
            old(self).wf(),
        ensures
            final(self).wf(),
            final(self)@ == (TaskState { parent: Some(p), ..old(self)@ }),
    {
        self.parent = Some(p);
    }

    /// Adds a child.
    pub fn link_child(&mut self, c: TaskRef)
        requires
            old(self).wf(),
        ensures
            final(self).wf(),
            final(self)@ == (TaskState { subtasks: old(self)@.subtasks.push(c), ..old(self)@ }),
    {
        self.subtasks.push(c);
    }

    /// Whether the task has ended.
    pub fn done(&self) -> (r: bool)
        ensures
            r == (self@.status is Some),
    {
        self.info.status.is_some()
    }

    /// How many children the task has.
    pub fn n_children(&self) -> (n: usize)
        ensures
            n == self@.subtasks.len(),
    {
        self.subtasks.len()
    }

    /// The lowest free descriptor.
    pub fn get_free_fd(&self) -> (fd: u64)
        requires
            self.wf(),
        ensures
            crate::ipc::lowest_key(self@.files, 0, fd),
    {
        let fd: u64 = self.files.lowest_free();
        assert forall|q: u64| 0 <= q < fd implies self@.files.dom().contains(q) by {
            assert(self.files@.dom().contains(q));
        }
        fd
    }

    /// The lowest free descriptor from `arg` on.
    pub fn get_free_fd_from(&self, arg: u64) -> (fd: u64)
        requires
            self.wf(),
            exists|q: u64| q >= arg && !self@.files.dom().contains(q),
        ensures
            crate::ipc::lowest_key(self@.files, arg, fd),
    {
        proof {
            let q = choose|q: u64| q >= arg && !self@.files.dom().contains(q);
            assert(!self.files@.dom().contains(q));
        }
        let fd: u64 = self.files.first_free(arg);
        assert forall|q: u64| arg <= q < fd implies self@.files.dom().contains(q) by {
            assert(self.files@.dom().contains(q));
        }
        fd
    }

    /// Puts a file under descriptor `fd`; gives what was there.
    fn put_file(&mut self, fd: u64, fl: FLike) -> (r: Option<FLike>)
        requires
            old(self).wf(),
            fl.wf(),
        ensures
            final(self).wf(),
            final(self)@ == (TaskState { files: old(self)@.files.insert(fd, fl@), ..old(self)@ }),
            final(self).files@ == old(self).files@.insert(fd, fl),
            r == (if old(self).files@.dom().contains(fd) { Some(old(self).files@[fd]) } else { None }),
    {
        let r = self.files.insert(fd, fl);
        assert(self@.files =~= old(self)@.files.insert(fd, fl@));
        r
    }

    /// Takes the file under descriptor `fd` away.
    fn take_file(&mut self, fd: u64) -> (r: Option<FLike>)
        requires
            old(self).wf(),
        ensures
            final(self).wf(),
            final(self)@ == (TaskState { files: old(self)@.files.remove(fd), ..old(self)@ }),
            final(self).files@ == old(self).files@.remove(fd),
            r == (if old(self).files@.dom().contains(fd) { Some(old(self).files@[fd]) } else { None }),
    {
        let r = self.files.remove(fd);
        assert(self@.files =~= old(self)@.files.remove(fd));
        r
    }

    /// Puts a file under the lowest free descriptor.
    pub fn add_file(&mut self, fl: FLike) -> (fd: u64)
        requires
            old(self).wf(),
            fl.wf(),
        ensures
            final(self).wf(),
            crate::ipc::lowest_key(old(self)@.files, 0, fd),
            final(self)@ == (TaskState { files: old(self)@.files.insert(fd, fl@), ..old(self)@ }),
    {
        let fd: u64 = self.get_free_fd();
        let _ = self.put_file(fd, fl);
        fd
    }

    /// What descriptor `fd` refers to.
    pub fn get_file(&self, fd: u64) -> (r: Option<&FLike>)
        requires
            self.wf(),
        ensures
            r is Some <==> self@.files.dom().contains(fd),
            r matches Some(f) ==> f@ == self@.files[fd] && *f == self.files@[fd],
    {
        self.files.get(fd)
    }

    /// The futex at `uaddr`, which is made if there is none.
    pub fn get_futex(&mut self, uaddr: u64) -> (b: &mut FutexBucket)
        requires
            old(self).wf(),
        ensures
            b@ == (if old(self)@.futexes.dom().contains(uaddr) {
                old(self)@.futexes[uaddr]
            } else {
                FutexState { waiters: Seq::empty(), granted: Seq::empty(), next_ticket: 0 }
            }),
            final(self).wf(),
            final(self)@ == (TaskState { futexes: old(self)@.futexes.insert(uaddr, final(b)@), ..old(self)@ }),
    {
        if !self.futexes.contains_key(uaddr) {
            let _ = self.futexes.insert(uaddr, FutexBucket::new());
        }
        let ghost mid = *self;
        let r = self.futexes.get_mut(uaddr).unwrap();
        assert(old(self)@.futexes.insert(uaddr, final(r)@) =~= mid.futexes@.insert(uaddr, *final(r)).map_values(
            |b: FutexBucket| b@,
        ));
        r
    }

    /// Whether the task has ended, or has no threads.
    pub fn exited(&self) -> (r: bool)
        ensures
            r == (self@.threads.len() == 0 || self@.status is Some),
    {
        self.threads.len() == 0 || self.info.status.is_some()
    }

    /// A copy of the epoll instance under `fd`.
    pub fn get_ep_mut(&self, fd: u64) -> (r: Result<EpInst, &'static str>)
        requires
            self.wf(),
        ensures
            self@.ep_inst.dom().contains(fd) ==> r is Ok && r->Ok_0@ == self@.ep_inst[fd] && r->Ok_0.events.wf(),
            !self@.ep_inst.dom().contains(fd) ==> r == Err::<EpInst, &'static str>("eperm"),
    {
        match self.ep_inst.get(fd) {
            Some(e) => Ok(e.dup()),
            None => Err("eperm"),
        }
    }

    /// A copy of the epoll instance under `fd`.
    pub fn get_ep_ref(&self, fd: u64) -> (r: Result<EpInst, &'static str>)
        requires
            self.wf(),
        ensures
            self@.ep_inst.dom().contains(fd) ==> r is Ok && r->Ok_0@ == self@.ep_inst[fd] && r->Ok_0.events.wf(),
            !self@.ep_inst.dom().contains(fd) ==> r == Err::<EpInst, &'static str>("eperm"),
    {
        self.get_ep_mut(fd)
    }

    /// Puts an epoll instance under `fd`.
    pub fn set_ep(&mut self, fd: u64, inst: EpInst)
        requires
            old(self).wf(),
            inst.events.wf(),
        ensures
            final(self).wf(),
            final(self)@ == (TaskState { ep_inst: old(self)@.ep_inst.insert(fd, inst@), ..old(self)@ }),
    {
        let _ = self.ep_inst.insert(fd, inst);
        assert(self@.ep_inst =~= old(self)@.ep_inst.insert(fd, inst@));
    }

    /// Takes what the thread needs to run; zeros if it runs already.
    pub fn begin_run(&mut self) -> (c: ThdCtx)
        requires
            old(self).wf(),
        ensures
            final(self).wf(),
            c@ == (match old(self)@.thd_ctx {
                Some(x) => x,
                None => ThdState::fresh(),
            }),
            final(self)@ == (TaskState { thd_ctx: None, ..old(self)@ }),
    {
        let c = match self.thd_ctx {
            Some(c) => c,
            None => ThdCtx::default(),
        };
        self.thd_ctx = None;
        c
    }

    /// Keeps what the thread needs to run.
    pub fn end_run(&mut self, cx: ThdCtx)
        requires
            old(self).wf(),
        ensures
            final(self).wf(),
            final(self)@ == (TaskState { thd_ctx: Some(cx@), ..old(self)@ }),
    {
        self.thd_ctx = Some(cx);
    }

    /// Whether a signal waits that the task is to get and does not block.
    pub fn has_sig(&self) -> (r: bool)
        ensures
            r == exists|i: int|
                0 <= i < self@.sig_queue.len() && sig_counts(#[trigger] self@.sig_queue[i], self@.id, self@.sig_mask),
    {
        let mut i: usize = 0;
        while i < self.sig_queue.len()
            invariant
                i <= self.sig_queue@.len(),
                forall|j: int| 0 <= j < i ==> !sig_counts(#[trigger] self@.sig_queue[j], self@.id, self@.sig_mask),
            decreases self.sig_queue@.len() - i,
        {
            let (s, who) = self.sig_queue[i];
            if who == -1 || crate::utils::to_unsigned(who) == self.info.id {
                if s >= 0 && s < 64 {
                    let bit: u64 = 1u64 << (s as u32);
                    if (self.sig_mask & bit) == 0 {
                        assert(sig_counts(self@.sig_queue[i as int], self@.id, self@.sig_mask));
                        return true;
                    }
                }
            }
            i += 1;
        }
        false
    }

    /// Sends the task a signal for the thread `sender_tid`, or for any.
    pub fn send_sig(&mut self, signo: i32, sender_tid: i64)
        requires
            old(self).wf(),
        ensures
            final(self).wf(),
            final(self)@ == old(self)@.signalled(signo, sender_tid),
    {
        self.sig_queue.push((signo, sender_tid));
        self.ev.set(EvFlag::RECV_SIG);
    }

    /// Closes a descriptor.
    pub fn close_fd(&mut self, heap: &mut FileHeap, fd: u64) -> (r: Result<(), &'static str>)
        requires
            old(self).wf(),
            old(heap).wf(),
            old(self)@.valid(old(heap)@),
            old(self)@.files.dom().contains(fd) ==> old(self)@.files[fd].closable(old(heap)@),
        ensures
            final(self).wf(),
            final(heap).wf(),
            r == (if old(self)@.files.dom().contains(fd) { Ok(()) } else { Err::<(), &'static str>("ebadf") }),
            final(self)@ == (TaskState { files: old(self)@.files.remove(fd), ..old(self)@ }),
            final(heap)@ == (if r is Ok { old(self)@.files[fd].closed(old(heap)@) } else { old(heap)@ }),
            final(self)@.valid(final(heap)@),
            same_extent(final(heap)@, old(heap)@),
    {
        assert(old(self)@.files.dom().contains(fd) <==> old(self).files@.dom().contains(fd));
        match self.take_file(fd) {
            Some(fl) => {
                fl.close(heap);
                Ok(())
            },
            None => {
                assert(old(self)@.files.remove(fd) =~= old(self)@.files);
                Err("ebadf")
            },
        }
    }

    /// Duplicates a descriptor to the lowest free one.
    pub fn dup_fd(&mut self, old_fd: u64, cloexec: bool) -> (r: Result<u64, &'static str>)
        requires
            old(self).wf(),
        ensures
            final(self).wf(),
            !old(self)@.files.dom().contains(old_fd) ==> r == Err::<u64, &'static str>("ebadf") && final(self)@ == old(self)@,
            old(self)@.files.dom().contains(old_fd) ==> r is Ok && crate::ipc::lowest_key(old(self)@.files, 0, r->Ok_0)
                && final(self)@ == (TaskState {
                files: old(self)@.files.insert(r->Ok_0, old(self)@.files[old_fd].duplicate(cloexec)),
                ..old(self)@
            }),
    {
        let n = match self.files.get(old_fd) {
            Some(f) => f.dup(cloexec),
            None => {
                return Err("ebadf");
            },
        };
        Ok(self.add_file(n))
    }

    /// Duplicates a descriptor to `new_fd`, which is closed first. Nothing is done if they are the
    /// same.
    pub fn dup2_fd(&mut self, heap: &mut FileHeap, old_fd: u64, new_fd: u64) -> (r: Result<u64, &'static str>)
        requires
            old(self).wf(),
            old(heap).wf(),
            old(self)@.valid(old(heap)@),
            old(self)@.files.dom().contains(new_fd) ==> old(self)@.files[new_fd].closable(old(heap)@),
        ensures
            final(self).wf(),
            final(heap).wf(),
            ({
                let files = old(self)@.files;
                if old_fd == new_fd {
                    r == Ok::<u64, &'static str>(new_fd) && final(self)@ == old(self)@ && final(heap)@ == old(heap)@
                } else if !files.dom().contains(old_fd) {
                    r == Err::<u64, &'static str>("ebadf") && final(self)@ == old(self)@ && final(heap)@ == old(heap)@
                } else {
                    &&& r == Ok::<u64, &'static str>(new_fd)
                    &&& final(self)@ == (TaskState {
                        files: files.insert(new_fd, files[old_fd].duplicate(false)),
                        ..old(self)@
                    })
                    &&& final(heap)@ == (if files.dom().contains(new_fd) {
                        files[new_fd].closed(old(heap)@)
                    } else {
                        old(heap)@
                    })
                }
            }),
    {
        if old_fd == new_fd {
            return Ok(new_fd);
        }
        let n = match self.files.get(old_fd) {
            Some(f) => f.dup(false),
            None => {
                return Err("ebadf");
            },
        };
        assert(old(self)@.files.dom().contains(new_fd) <==> old(self).files@.dom().contains(new_fd));
        match self.put_file(new_fd, n) {
            Some(prev) => prev.close(heap),
            None => {},
        }
        Ok(new_fd)
    }

    /// How many descriptors are open.
    pub fn fd_count(&self) -> (n: usize)
        requires
            self.wf(),
        ensures
            n == self.files@.len(),
            n == self@.files.len(),
    {
        proof {
            lemma_refs_len(self.files@);
        }
        self.files.len()
    }

    /// Sets whether a descriptor is closed when another program is started. Only files have that
    /// mark.
    pub fn set_cloexec(&mut self, fd: u64, val: bool) -> (r: Result<(), &'static str>)
        requires
            old(self).wf(),
        ensures
            final(self).wf(),
            r == (if old(self)@.files.dom().contains(fd) { Ok(()) } else { Err::<(), &'static str>("ebadf") }),
            final(self)@ == (if r is Ok {
                TaskState {
                    files: old(self)@.files.insert(fd, old(self)@.files[fd].duplicate(val)),
                    ..old(self)@
                }
            } else {
                old(self)@
            }),
    {
        match self.files.get(fd) {
            Some(f) => {
                let n = f.dup(val);
                let _ = self.put_file(fd, n);
                Ok(())
            },
            None => Err("ebadf"),
        }
    }

    /// Takes away the descriptors of files that are marked to be closed when a program starts.
    pub(crate) fn close_on_exec(&mut self)
        requires
            old(self).wf(),
        ensures
            final(self).wf(),
            final(self)@ == (TaskState { files: crate::kernel_struct::kept_on_exec(old(self)@.files), ..old(self)@ }),
    {
        let keys = self.files.keys();
        let ghost a = self@;
        let ghost m0 = self.files@;
        let n = keys.len();
        let mut i: usize = 0;
        proof {
            self.files.lemma_key_seq();
            assert(a.files == refs_of(m0));
        }
        while i < n
            invariant
                self.wf(),
                n == keys@.len(),
                i <= n,
                a.files == refs_of(m0),
                self@ == (TaskState { files: self@.files, ..a }),
                forall|k: u64| #[trigger] m0.dom().contains(k) <==> keys@.contains(k),
                forall|x: int, y: int| 0 <= x < y < keys@.len() ==> keys@[x] < keys@[y],
                forall|k: u64| #[trigger]
                    self.files@.dom().contains(k) <==> m0.dom().contains(k) && !(crate::kernel_struct::ends_on_exec(m0[k]@)
                        && exists|j: int| 0 <= j < i && keys@[j] == k),
                forall|k: u64| #[trigger] self.files@.dom().contains(k) ==> self.files@[k] == m0[k],
            decreases n - i,
        {
            let fd: u64 = keys[i];
            assert(keys@.contains(fd));
            assert(m0.dom().contains(fd));
            assert(self.files@.dom().contains(fd));
            let ends = match self.files.get(fd) {
                Some(FLike::File(h)) => h.cloexec,
                _ => false,
            };
            assert(ends == crate::kernel_struct::ends_on_exec(m0[fd]@));
            let ghost before = self.files@;
            if ends {
                let _ = self.take_file(fd);
            }
            proof {
                assert forall|k: u64| #[trigger] self.files@.dom().contains(k) <==> m0.dom().contains(k)
                    && !(crate::kernel_struct::ends_on_exec(m0[k]@) && exists|j: int| 0 <= j < i + 1 && keys@[j] == k) by {
                    assert(self.files@.dom().contains(k) <==> before.dom().contains(k) && !(ends && k == fd));
                    if exists|j: int| 0 <= j < i + 1 && keys@[j] == k {
                        let j = choose|j: int| 0 <= j < i + 1 && keys@[j] == k;
                        assert(j < i || k == fd);
                    }
                    if exists|j: int| 0 <= j < i && keys@[j] == k {
                        let j = choose|j: int| 0 <= j < i && keys@[j] == k;
                        assert(j < i + 1);
                    }
                }
            }
            i += 1;
        }
        proof {
            let kept = crate::kernel_struct::kept_on_exec(a.files);
            assert forall|k: u64| #[trigger] self@.files.dom().contains(k) <==> kept.dom().contains(k) by {
                assert(self@.files.dom().contains(k) <==> self.files@.dom().contains(k));
                assert(a.files.dom().contains(k) <==> m0.dom().contains(k));
                if m0.dom().contains(k) {
                    assert(keys@.contains(k));
                    assert(a.files[k] == m0[k]@);
                }
            }
            assert forall|k: u64| #[trigger] self@.files.dom().contains(k) implies self@.files[k] == kept[k] by {
                assert(self.files@.dom().contains(k));
                assert(m0.dom().contains(k));
            }
            assert(self@.files =~= kept);
            assert(self@ =~= (TaskState { files: kept, ..a }));
        }
    }

    /// Closes all descriptors, in ascending order.
    fn close_all(&mut self, heap: &mut FileHeap)
        requires
            old(self).wf(),
            old(heap).wf(),
            old(self)@.valid(old(heap)@),
            closable_times(old(heap)@, old(self)@.files.len() as int),
        ensures
            final(self).wf(),
            final(heap).wf(),
            final(self)@ == (TaskState { files: Map::empty(), ..old(self)@ }),
            final(heap)@ == closed_all(
                old(heap)@,
                open_refs(old(self)@.files),
                open_refs(old(self)@.files).len() as int,
            ),
            same_extent(final(heap)@, old(heap)@),
    {
        let keys = self.files.keys();
        let ghost s = open_refs(self@.files);
        let ghost m0 = self.files@;
        let ghost h0 = heap@;
        let n = keys.len();
        let mut i: usize = 0;
        proof {
            self.files.lemma_key_seq();
            lemma_refs_len(m0);
            assert(self@.files.dom() =~= m0.dom());
            assert(crate::seqs::lists_keys(keys@, self@.files));
            crate::seqs::lemma_sorted_keys(keys@, self@.files);
            assert(s =~= keys@.map_values(|k: u64| m0[k]@));
            assert forall|k: u64| #[trigger] m0.dom().contains(k) implies m0[k]@.refers(h0) by {
                assert(self@.files.dom().contains(k));
            }
        }
        while i < n
            invariant
                n == keys@.len(),
                n == s.len(),
                i <= n,
                crate::seqs::ascending(keys@),
                forall|k: u64| keys@.contains(k) <==> m0.dom().contains(k),
                s == keys@.map_values(|k: u64| m0[k]@),
                self.wf(),
                heap.wf(),
                self@ == (TaskState { files: self@.files, ..old(self)@ }),
                forall|k: u64| #[trigger] self.files@.dom().contains(k) <==> m0.dom().contains(k) && !keys@.take(i as int).contains(k),
                forall|k: u64| #[trigger] self.files@.dom().contains(k) ==> self.files@[k] == m0[k],
                heap@ == closed_all(h0, s, i as int),
                same_extent(heap@, h0),
                forall|k: u64| #[trigger] m0.dom().contains(k) ==> m0[k]@.refers(h0),
                closable_times(heap@, n - i),
            decreases n - i,
        {
            let fd: u64 = keys[i];
            proof {
                assert(keys@.contains(keys@[i as int]));
                assert(!keys@.take(i as int).contains(fd)) by {
                    if keys@.take(i as int).contains(fd) {
                        let j = choose|j: int| 0 <= j < i && keys@.take(i as int)[j] == fd;
                        assert(keys@[j] < keys@[i as int]);
                    }
                }
                assert(self.files@.dom().contains(fd));
            }
            let ghost before = heap@;
            match self.take_file(fd) {
                Some(fl) => {
                    assert(fl@ == s[i as int]);
                    assert(m0[fd]@.refers(h0));
                    fl.close(heap);
                },
                None => {},
            }
            i += 1;
            proof {
                let now = keys@.take(i as int);
                let was = keys@.take(i - 1);
                assert(now =~= was.push(fd));
                assert forall|k: u64| #[trigger] self.files@.dom().contains(k) <==> m0.dom().contains(k) && !now.contains(k) by {
                    if was.contains(k) {
                        let j = choose|j: int| 0 <= j < was.len() && was[j] == k;
                        assert(now[j] == k);
                    }
                    if k == fd {
                        assert(now[i - 1] == k);
                    }
                    if now.contains(k) && k != fd {
                        let j = choose|j: int| 0 <= j < now.len() && now[j] == k;
                        assert(was[j] == k);
                    }
                }
                assert forall|p: int| 0 <= p < heap@.pipes.len() implies (#[trigger] heap@.pipes[p]).ends - (n - i) >= i32::MIN by {
                    assert(before.pipes[p].ends - (n - (i - 1)) >= i32::MIN);
                }
            }
        }
        proof {
            assert(keys@.take(n as int) =~= keys@);
            assert(self.files@ =~= Map::<u64, FLike>::empty());
            assert(self@.files =~= Map::<u64, FRef>::empty());
        }
    }
}

proof fn lemma_refs_len(m: Map<u64, FLike>)
    ensures
        refs_of(m).len() == m.len(),
{
    assert(refs_of(m).dom() =~= m.dom());
}

// ---------------------------------------------------------------------------------------------
// The table
// ---------------------------------------------------------------------------------------------

/// The tasks and the numbers under which they are registered.
pub struct TaskTable {
    /// The tasks.
    pub arena: Vec<Task>,
    /// The numbers.
    pub map: OrdMap<TaskRef>,
    /// The next number.
    pub seq: u64,
    /// The first process.
    pub root: Option<TaskRef>,
}

/// The tasks and their numbers, as values.
#[verifier::ext_equal]
pub struct TableState {
    /// The tasks.
    pub arena: Seq<TaskState>,
    /// The numbers.
    pub map: Map<u64, TaskRef>,
    /// The next number.
    pub seq: u64,
    /// The first process.
    pub root: Option<TaskRef>,
}

/// A task of the name `tag`.
pub open spec fn tagged(arena: Seq<TaskState>, tag: Seq<char>) -> spec_fn(TaskRef) -> bool {
    |t: TaskRef| arena[t as int].tag == tag
}

/// A task of the group `pgid`.
pub open spec fn grouped(arena: Seq<TaskState>, pgid: Pgid) -> spec_fn(TaskRef) -> bool {
    |t: TaskRef| arena[t as int].pgid == pgid
}

/// A number whose task has ended or not.
pub open spec fn ended(s: TableState, done: bool) -> spec_fn(u64) -> bool {
    |k: u64| (s.arena[s.map[k] as int].status is Some) == done
}

impl TableState {
    /// With task `i` replaced.
    pub open spec fn with(self, i: TaskRef, t: TaskState) -> TableState {
        TableState { arena: self.arena.update(i as int, t), ..self }
    }

    /// The tasks in ascending order of the numbers under which they are registered.
    pub open spec fn members(self) -> Seq<TaskRef> {
        crate::seqs::sorted_keys(self.map).map_values(|k: u64| self.map[k])
    }

    /// Numbers and links lead to tasks.
    pub open spec fn linked(self) -> bool {
        &&& forall|k: u64| #[trigger] self.map.dom().contains(k) ==> self.map[k] < self.arena.len()
        &&& self.root matches Some(r) ==> r < self.arena.len()
        &&& forall|i: int|
            0 <= i < self.arena.len() ==> ((#[trigger] self.arena[i]).parent matches Some(p) ==> p < self.arena.len())
        &&& forall|i: int, j: int|
            #![trigger self.arena[i].subtasks[j]]
            0 <= i < self.arena.len() && 0 <= j < self.arena[i].subtasks.len() ==> self.arena[i].subtasks[j] < self.arena.len()
    }

    /// The descriptors of all tasks refer to something.
    pub open spec fn valid(self, h: HeapState) -> bool {
        forall|i: int| 0 <= i < self.arena.len() ==> (#[trigger] self.arena[i]).valid(h)
    }

    /// After a new task was made and registered under the next number.
    pub open spec fn spawned(self, tag: Seq<char>) -> TableState {
        TableState {
            arena: self.arena.push(TaskState::fresh(self.seq, tag)),
            map: self.map.insert(self.seq, self.arena.len() as usize),
            seq: self.seq.wrapping_add(1),
            ..self
        }
    }

    /// After the first `n` of the tasks `ch` became children of `r`.
    pub open spec fn adopted(self, ch: Seq<TaskRef>, r: TaskRef, n: int) -> TableState
        decreases n,
    {
        if n <= 0 {
            self
        } else {
            let s = self.adopted(ch, r, n - 1);
            let c = ch[n - 1];
            let s1 = s.with(c, TaskState { parent: Some(r), ..s.arena[c as int] });
            s1.with(r, TaskState { subtasks: s1.arena[r as int].subtasks.push(c), ..s1.arena[r as int] })
        }
    }

    /// After the task under `id` was reaped: the first process takes its children, and the number
    /// is free.
    pub open spec fn reaped(self, id: u64) -> TableState {
        if self.map.dom().contains(id) {
            let t = self.map[id];
            let a = self.arena[t as int];
            let s1 = self.with(t, TaskState { status: Some(0), subtasks: Seq::empty(), ..a });
            let s2 = match self.root {
                Some(r) => s1.adopted(a.subtasks, r, a.subtasks.len() as int),
                None => s1,
            };
            TableState { map: s2.map.remove(id), ..s2 }
        } else {
            self
        }
    }

    /// After task `t` ended with `code`: its files are closed, it and its parent are told, and its
    /// threads are gone.
    pub open spec fn exited(self, t: TaskRef, code: u64) -> TableState {
        let a = self.arena[t as int];
        let s1 = self.with(t, TaskState { files: Map::empty(), ev: a.ev.changed_by(0, EvFlag::PROC_QUIT), ..a });
        let s2 = match a.parent {
            Some(p) => {
                let b = s1.arena[p as int];
                s1.with(p, TaskState { ev: b.ev.changed_by(0, EvFlag::CHILD_QUIT), ..b })
            },
            None => s1,
        };
        s2.with(
            t,
            TaskState {
                exit_code: code,
                threads: Seq::empty(),
                status: Some((code % 256) as i32),
                ..s2.arena[t as int]
            },
        )
    }

    /// After each of the first `n` of the tasks `g` got a signal.
    pub open spec fn signalled(self, g: Seq<TaskRef>, signo: i32, sender: i64, n: int) -> TableState
        decreases n,
    {
        if n <= 0 {
            self
        } else {
            let s = self.signalled(g, signo, sender, n - 1);
            s.with(g[n - 1], s.arena[g[n - 1] as int].signalled(signo, sender))
        }
    }

    /// A child of `src` as it is made, with the number `nid`.
    pub open spec fn child_of(self, src: TaskRef, nid: u64) -> TaskState {
        let a = self.arena[src as int];
        TaskState {
            cwd: a.cwd,
            exec_path: a.exec_path,
            files: a.files.map_values(|f: FRef| f.duplicate(false)),
            pgid: a.pgid,
            sems: a.sems,
            shms: a.shms,
            sig_mask: a.sig_mask,
            thd_ctx: a.thd_ctx,
            parent: Some(src),
            pid: Pid(nid),
            threads: seq![nid],
            ..TaskState::fresh(nid, a.tag)
        }
    }

    /// After task `src` was forked.
    pub open spec fn forked(self, src: TaskRef) -> TableState {
        let nid = self.seq;
        let n = self.arena.len() as usize;
        let a = self.arena[src as int];
        TableState {
            arena: self.arena.update(src as int, TaskState { subtasks: a.subtasks.push(n), ..a }).push(self.child_of(src, nid)),
            map: self.map.insert(nid, n),
            seq: self.seq.wrapping_add(1),
            ..self
        }
    }

    /// A thread of `src` as it is made, with the number `id`.
    pub open spec fn thread_of(self, src: TaskRef, id: u64, stack_top: u64, tls: u64, clear_tid: u64) -> TaskState {
        let a = self.arena[src as int];
        TaskState {
            thd_ctx: Some(
                ThdState {
                    regs: zero_regs().with(0, 0).with(crate::consts::N_REGS - 1, stack_top).with(
                        crate::consts::N_REGS - 2,
                        tls,
                    ),
                    clear_tid,
                    smask: a.sig_mask,
                },
            ),
            vm_token: a.vm_token,
            ..TaskState::fresh(id, a.tag)
        }
    }
}

impl TaskTable {
    /// The tasks and their numbers, as values.
    pub open spec fn view(&self) -> TableState {
        TableState {
            arena: self.arena@.map_values(|t: Task| t@),
            map: self.map@,
            seq: self.seq,
            root: self.root,
        }
    }

    /// The tasks are well-formed, and numbers and links lead to tasks.
    pub open spec fn wf(&self) -> bool {
        &&& self.map.wf()
        &&& forall|i: int| 0 <= i < self.arena@.len() ==> (#[trigger] self.arena@[i]).wf()
        &&& self@.linked()
    }

    /// No tasks; the first number is 1.
    pub fn new() -> (t: Self)
        ensures
            t.wf(),
            t@ == (TableState { arena: Seq::empty(), map: Map::empty(), seq: 1, root: None }),
    {
        let t = TaskTable { arena: Vec::new(), map: OrdMap::new(), seq: 1, root: None };
        assert(t@.arena =~= Seq::empty());
        t
    }

    /// Puts a task into the arena and registers it under `id`.
    fn enlist(&mut self, id: u64, t: Task) -> (r: TaskRef)
        requires
            old(self).wf(),
            t.wf(),
            t@.parent matches Some(p) ==> p < old(self)@.arena.len(),
            forall|j: int| 0 <= j < t@.subtasks.len() ==> (#[trigger] t@.subtasks[j]) < old(self)@.arena.len(),
        ensures
            final(self).wf(),
            r == old(self)@.arena.len(),
            r < final(self)@.arena.len(),
            final(self)@ == (TableState {
                arena: old(self)@.arena.push(t@),
                map: old(self)@.map.insert(id, r),
                ..old(self)@
            }),
    {
        let r = self.arena.len();
        let ghost before = self@;
        self.arena.push(t);
        let _ = self.map.insert(id, r);
        proof {
            assert(self@.arena =~= before.arena.push(t@));
            assert forall|i: int, j: int|
                #![trigger self@.arena[i].subtasks[j]]
                0 <= i < self@.arena.len() && 0 <= j < self@.arena[i].subtasks.len() implies self@.arena[i].subtasks[j]
                < self@.arena.len() by {
                if i < r {
                    assert(before.arena[i].subtasks[j] < r);
                } else {
                    assert(t@.subtasks[j] < r);
                }
            }
            assert forall|i: int| 0 <= i < self@.arena.len() implies ((#[trigger] self@.arena[i]).parent matches Some(p)
                ==> p < self@.arena.len()) by {
                if i < r {
                    assert(before.arena[i].parent matches Some(p) ==> p < r);
                }
            }
        }
        r
    }

    /// The next number.
    pub(crate) fn next_id(&mut self) -> (id: u64)
        requires
            old(self).wf(),
        ensures
            final(self).wf(),
            id == old(self)@.seq,
            final(self)@ == (TableState { seq: old(self)@.seq.wrapping_add(1), ..old(self)@ }),
    {
        let id: u64 = self.seq;
        self.seq = self.seq.wrapping_add(1);
        id
    }

    /// Makes a task and registers it under the next number.
    pub fn spawn(&mut self, tag: &str) -> (r: TaskRef)
        requires
            old(self).wf(),
        ensures
            final(self).wf(),
            r == old(self)@.arena.len(),
            r < final(self)@.arena.len(),
            final(self)@ == old(self)@.spawned(tag@),
    {
        let id: u64 = self.next_id();
        let t = Task::make(id, tag);
        self.enlist(id, t)
    }

    /// Makes the first process.
    pub fn spawn_root(&mut self) -> (r: TaskRef)
        requires
            old(self).wf(),
        ensures
            final(self).wf(),
            r == old(self)@.arena.len(),
            r < final(self)@.arena.len(),
            final(self)@ == (TableState { root: Some(r), ..old(self)@.spawned("init"@) }),
    {
        let r = self.spawn("init");
        let ghost mid = self@;
        self.root = Some(r);
        assert(self@ =~= (TableState { root: Some(r), ..mid }));
        r
    }

    /// The task under `id`.
    pub fn find(&self, id: u64) -> (r: Option<TaskRef>)
        requires
            self.wf(),
        ensures
            r == (if self@.map.dom().contains(id) { Some(self@.map[id]) } else { None }),
            r matches Some(t) ==> t < self@.arena.len(),
    {
        match self.map.get(id) {
            Some(t) => {
                assert(self@.map.dom().contains(id));
                Some(*t)
            },
            None => None,
        }
    }

    /// The registered tasks in ascending order of their numbers.
    fn all(&self) -> (v: Vec<TaskRef>)
        requires
            self.wf(),
        ensures
            v@ == self@.members(),
            forall|i: int| 0 <= i < v@.len() ==> (#[trigger] v@[i]) < self@.arena.len(),
    {
        let n = self.map.len();
        let mut v: Vec<TaskRef> = Vec::new();
        let mut i: usize = 0;
        proof {
            self.map.lemma_key_seq();
            crate::seqs::lemma_sorted_keys(self.map.key_seq(), self@.map);
        }
        while i < n
            invariant
                self.wf(),
                n == self.map.key_seq().len(),
                self.map.key_seq() == crate::seqs::sorted_keys(self@.map),
                i <= n,
                v@ == self@.members().take(i as int),
                forall|i: int| 0 <= i < v@.len() ==> (#[trigger] v@[i]) < self@.arena.len(),
            decreases n - i,
        {
            proof {
                self.map.lemma_key_seq();
                assert(self@.map.dom().contains(self.map.key_seq()[i as int]));
            }
            v.push(*self.map.val_at(i));
            i += 1;
            assert(v@ =~= self@.members().take(i as int));
        }
        assert(v@ =~= self@.members());
        v
    }

    /// The tasks of a name.
    pub fn find_by_tag(&self, tag: &str) -> (v: Vec<TaskRef>)
        requires
            self.wf(),
        ensures
            v@ == self@.members().filter(tagged(self@.arena, tag@)),
    {
        let all = self.all();
        let ghost p = tagged(self@.arena, tag@);
        let mut v: Vec<TaskRef> = Vec::new();
        let mut i: usize = 0;
        proof {
            crate::seqs::lemma_filter_ends(all@, p);
        }
        while i < all.len()
            invariant
                self.wf(),
                i <= all@.len(),
                p == tagged(self@.arena, tag@),
                forall|i: int| 0 <= i < all@.len() ==> (#[trigger] all@[i]) < self@.arena.len(),
                v@ == all@.take(i as int).filter(p),
            decreases all@.len() - i,
        {
            proof {
                crate::seqs::lemma_filter_step(all@, i as int, p);
            }
            let t: usize = all[i];
            assert(self.arena@[t as int]@ == self@.arena[t as int]);
            if same_str(self.arena[t].info.tag.as_str(), tag) {
                v.push(t);
            }
            i += 1;
        }
        proof {
            crate::seqs::lemma_filter_ends(all@, p);
        }
        v
    }

    /// The first process, by number, that has the thread `tid`.
    pub fn process_of_tid(&self, tid: Tid) -> (r: Option<TaskRef>)
        requires
            self.wf(),
        ensures
            r is None ==> forall|i: int|
                0 <= i < self@.members().len() ==> !self@.arena[(#[trigger] self@.members()[i]) as int].threads.contains(tid),
            r matches Some(t) ==> exists|i: int|
                0 <= i < self@.members().len() && (#[trigger] self@.members()[i]) == t && self@.arena[t as int].threads.contains(
                    tid,
                ) && forall|j: int|
                    0 <= j < i ==> !self@.arena[(#[trigger] self@.members()[j]) as int].threads.contains(tid),
    {
        let all = self.all();
        let mut i: usize = 0;
        while i < all.len()
            invariant
                self.wf(),
                i <= all@.len(),
                all@ == self@.members(),
                forall|i: int| 0 <= i < all@.len() ==> (#[trigger] all@[i]) < self@.arena.len(),
                forall|j: int|
                    0 <= j < i ==> !self@.arena[(#[trigger] self@.members()[j]) as int].threads.contains(tid),
            decreases all@.len() - i,
        {
            let t: usize = all[i];
            assert(self.arena@[t as int]@ == self@.arena[t as int]);
            let threads = &self.arena[t].threads;
            let mut k: usize = 0;
            while k < threads.len()
                invariant
                    k <= threads@.len(),
                    i < all@.len(),
                    all@ == self@.members(),
                    t == all@[i as int],
                    t < self@.arena.len(),
                    threads@ == self@.arena[t as int].threads,
                    forall|j: int| 0 <= j < k ==> threads@[j] != tid,
                    forall|j: int|
                        0 <= j < i ==> !self@.arena[(#[trigger] self@.members()[j]) as int].threads.contains(tid),
                decreases threads@.len() - k,
            {
                if threads[k] == tid {
                    assert(self@.arena[t as int].threads[k as int] == tid);
                    assert(self@.members()[i as int] == t);
                    return Some(t);
                }
                k += 1;
            }
            assert(!self@.arena[self@.members()[i as int] as int].threads.contains(tid));
            i += 1;
        }
        None
    }

    /// The tasks of a process group.
    pub fn pgid_group(&self, pgid: Pgid) -> (v: Vec<TaskRef>)
        requires
            self.wf(),
        ensures
            v@ == self@.members().filter(grouped(self@.arena, pgid)),
            forall|i: int| 0 <= i < v@.len() ==> (#[trigger] v@[i]) < self@.arena.len(),
    {
        let all = self.all();
        let ghost p = grouped(self@.arena, pgid);
        let mut v: Vec<TaskRef> = Vec::new();
        let mut i: usize = 0;
        proof {
            crate::seqs::lemma_filter_ends(all@, p);
        }
        while i < all.len()
            invariant
                self.wf(),
                i <= all@.len(),
                p == grouped(self@.arena, pgid),
                forall|i: int| 0 <= i < all@.len() ==> (#[trigger] all@[i]) < self@.arena.len(),
                forall|i: int| 0 <= i < v@.len() ==> (#[trigger] v@[i]) < self@.arena.len(),
                v@ == all@.take(i as int).filter(p),
            decreases all@.len() - i,
        {
            proof {
                crate::seqs::lemma_filter_step(all@, i as int, p);
            }
            let t: usize = all[i];
            assert(self.arena@[t as int]@ == self@.arena[t as int]);
            if self.arena[t].pgid == pgid {
                v.push(t);
            }
            i += 1;
        }
        proof {
            crate::seqs::lemma_filter_ends(all@, p);
        }
        v
    }

    /// Gives a task the number `pid` and registers it there, too.
    pub fn register(&mut self, task: TaskRef, pid: Pid)
        requires
            old(self).wf(),
            task < old(self)@.arena.len(),
        ensures
            final(self).wf(),
            final(self)@ == (TableState {
                map: old(self)@.map.insert(pid.0, task),
                ..old(self)@.with(task, TaskState { pid, ..old(self)@.arena[task as int] })
            }),
    {
        let ghost before = self@;
        assert(self.arena@[task as int]@ == before.arena[task as int]);
        self.arena[task].pid = pid;
        let _ = self.map.insert(pid.get(), task);
        proof {
            let s = before.with(task, TaskState { pid, ..before.arena[task as int] });
            assert(self.arena@[task as int]@ =~= s.arena[task as int]);
            assert(self@.arena =~= s.arena);
            lemma_linked(before, s);
        }
    }

    /// Reaps the task under `id`: the first process takes its children, and the number is free.
    pub fn reap(&mut self, id: u64)
        requires
            old(self).wf(),
        ensures
            final(self).wf(),
            final(self)@ == old(self)@.reaped(id),
    {
        let t: usize = match self.find(id) {
            Some(t) => t,
            None => {
                return;
            },
        };
        let ghost s0 = self@;
        let ghost a = s0.arena[t as int];
        assert(self.arena@[t as int]@ == a);
        self.arena[t].info.status = Some(0);
        let mut ch: Vec<TaskRef> = Vec::new();
        std::mem::swap(&mut ch, &mut self.arena[t].subtasks);
        let ghost s1 = s0.with(t, TaskState { status: Some(0), subtasks: Seq::empty(), ..a });
        proof {
            assert(self.arena@[t as int]@ =~= s1.arena[t as int]);
            assert(self@.arena =~= s1.arena);
            assert(self@ =~= s1);
            assert forall|j: int| 0 <= j < ch@.len() implies (#[trigger] ch@[j]) < s1.arena.len() by {
                assert(s0.arena[t as int].subtasks[j] < s0.arena.len());
            }
            lemma_linked_drop(s0, s1);
        }
        match self.root {
            Some(r) => {
                let mut n: usize = 0;
                while n < ch.len()
                    invariant
                        self.wf(),
                        n <= ch@.len(),
                        self@ == s1.adopted(ch@, r, n as int),
                        self@.arena.len() == s1.arena.len(),
                        self@.map == s1.map,
                        self@.root == s1.root,
                        r < s1.arena.len(),
                        forall|j: int| 0 <= j < ch@.len() ==> (#[trigger] ch@[j]) < s1.arena.len(),
                    decreases ch@.len() - n,
                {
                    self.adopt(ch[n], r);
                    n += 1;
                }
            },
            None => {},
        }
        let ghost s2 = self@;
        let _ = self.map.remove(id);
        assert(self@ =~= (TableState { map: s2.map.remove(id), ..s2 }));
    }

    /// Makes the children of `t` children of `r`.
    pub(crate) fn hand_over(&mut self, t: TaskRef, r: TaskRef)
        requires
            old(self).wf(),
            t < old(self)@.arena.len(),
            r < old(self)@.arena.len(),
        ensures
            final(self).wf(),
            ({
                let ch = old(self)@.arena[t as int].subtasks;
                final(self)@ == old(self)@.adopted(ch, r, ch.len() as int)
            }),
    {
        let ghost s0 = self@;
        let ghost sub = s0.arena[t as int].subtasks;
        assert(self.arena@[t as int]@ == s0.arena[t as int]);
        let n = self.arena[t].subtasks.len();
        let mut ch: Vec<TaskRef> = Vec::new();
        let mut i: usize = 0;
        while i < n
            invariant
                t < self.arena@.len(),
                self.arena@[t as int].subtasks@ == sub,
                n == sub.len(),
                i <= n,
                ch@ == sub.take(i as int),
            decreases n - i,
        {
            ch.push(self.arena[t].subtasks[i]);
            assert(sub.take(i + 1) =~= sub.take(i as int).push(sub[i as int]));
            i += 1;
        }
        proof {
            assert(ch@ =~= sub);
            assert forall|j: int| 0 <= j < ch@.len() implies (#[trigger] ch@[j]) < s0.arena.len() by {
                assert(s0.arena[t as int].subtasks[j] < s0.arena.len());
            }
        }
        let mut j: usize = 0;
        while j < n
            invariant
                self.wf(),
                n == ch@.len(),
                j <= n,
                r < s0.arena.len(),
                forall|x: int| 0 <= x < ch@.len() ==> (#[trigger] ch@[x]) < s0.arena.len(),
                self@ == s0.adopted(ch@, r, j as int),
                self@.arena.len() == s0.arena.len(),
            decreases n - j,
        {
            self.adopt(ch[j], r);
            j += 1;
        }
    }

    /// Makes `c` a child of `r`.
    fn adopt(&mut self, c: TaskRef, r: TaskRef)
        requires
            old(self).wf(),
            c < old(self)@.arena.len(),
            r < old(self)@.arena.len(),
        ensures
            final(self).wf(),
            ({
                let s = old(self)@;
                let s1 = s.with(c, TaskState { parent: Some(r), ..s.arena[c as int] });
                final(self)@ == s1.with(
                    r,
                    TaskState { subtasks: s1.arena[r as int].subtasks.push(c), ..s1.arena[r as int] },
                )
            }),
            final(self)@.arena.len() == old(self)@.arena.len(),
            final(self)@.map == old(self)@.map,
            final(self)@.root == old(self)@.root,
    {
        let ghost s = self@;
        assert(self.arena@[c as int]@ == s.arena[c as int]);
        self.arena[c].link_parent(r);
        let ghost s1 = s.with(c, TaskState { parent: Some(r), ..s.arena[c as int] });
        assert(self@.arena =~= s1.arena);
        assert(self.arena@[r as int]@ == s1.arena[r as int]);
        self.arena[r].link_child(c);
        proof {
            let s2 = s1.with(r, TaskState { subtasks: s1.arena[r as int].subtasks.push(c), ..s1.arena[r as int] });
            assert(self@.arena =~= s2.arena);
            assert(self@ =~= s2);
            assert forall|i: int, j: int|
                #![trigger s2.arena[i].subtasks[j]]
                0 <= i < s2.arena.len() && 0 <= j < s2.arena[i].subtasks.len() implies s2.arena[i].subtasks[j] < s2.arena.len() by {
                if j < s.arena[i].subtasks.len() {
                    assert(s.arena[i].subtasks[j] < s.arena.len());
                }
            }
            assert forall|i: int| 0 <= i < s2.arena.len() implies ((#[trigger] s2.arena[i]).parent matches Some(p)
                ==> p < s2.arena.len()) by {
                assert(s.arena[i].parent matches Some(p) ==> p < s.arena.len());
            }
            assert(s2.linked());
        }
    }

    /// Makes a child of `src`: a task that shares its files, its semaphores and its shared
    /// memories, with its directories, group, blocked signals and registers.
    pub fn fork_task(&mut self, src: TaskRef, sems: &mut SemHeap, shms: &mut ShmHeap) -> (r: TaskRef)
        requires
            old(self).wf(),
            src < old(self)@.arena.len(),
            old(sems).wf(),
            old(shms).wf(),
            inheritable(old(self)@.arena[src as int], old(sems)@, old(shms)@),
        ensures
            final(self).wf(),
            final(sems).wf(),
            final(shms).wf(),
            r == old(self)@.arena.len(),
            r < final(self)@.arena.len(),
            final(self)@ == old(self)@.forked(src),
            final(sems)@ == sems_inherited(old(sems)@, old(self)@.arena[src as int]),
            final(shms)@ == shms_inherited(old(shms)@, old(self)@.arena[src as int]),
    {
        let ghost s0 = self@;
        let nid: u64 = self.next_id();
        let ghost a = s0.arena[src as int];
        assert(self.arena@[src as int]@ == a);
        let p = &self.arena[src];
        let mut t = Task::make(nid, p.info.tag.as_str());
        t.cwd = p.cwd.as_str().to_owned();
        t.exec_path = p.exec_path.as_str().to_owned();
        t.files = dup_files(&p.files);
        t.pgid = p.pgid;
        t.sem_ctx = p.sem_ctx.inherit(sems);
        t.shm_ctx = p.shm_ctx.inherit(shms);
        t.sig_mask = p.sig_mask;
        t.thd_ctx = p.thd_ctx;
        t.parent = Some(src);
        t.pid = Pid(nid);
        t.threads.push(nid);
        proof {
            assert(t@.files =~= a.files.map_values(|f: FRef| f.duplicate(false)));
            assert(t@.threads =~= seq![nid]);
            assert(t@ =~= s0.child_of(src, nid));
        }
        let r = self.enlist(nid, t);
        let ghost s1 = self@;
        assert(self.arena@[src as int]@ == s1.arena[src as int]);
        self.arena[src].link_child(r);
        proof {
            let s2 = s0.forked(src);
            assert(s1.arena[src as int] == a);
            assert(self.arena@[src as int]@ == s2.arena[src as int]);
            assert forall|i: int| 0 <= i < s2.arena.len() implies self@.arena[i] == s2.arena[i] by {
                if i != src {
                    assert(self.arena@[i]@ == s1.arena[i]);
                }
            }
            assert(self@.arena =~= s2.arena);
            assert(self@ =~= s2);
            assert forall|i: int, j: int|
                #![trigger s2.arena[i].subtasks[j]]
                0 <= i < s2.arena.len() && 0 <= j < s2.arena[i].subtasks.len() implies s2.arena[i].subtasks[j] < s2.arena.len() by {
                if i < s0.arena.len() && j < s0.arena[i].subtasks.len() {
                    assert(s0.arena[i].subtasks[j] < s0.arena.len());
                }
            }
            assert forall|i: int| 0 <= i < s2.arena.len() implies ((#[trigger] s2.arena[i]).parent matches Some(p)
                ==> p < s2.arena.len()) by {
                if i < s0.arena.len() {
                    assert(s0.arena[i].parent matches Some(p) ==> p < s0.arena.len());
                }
            }
            assert(s2.linked());
        }
        r
    }

    /// Makes a thread of `src`, with its own stack and local storage.
    pub fn clone_thread(&mut self, src: TaskRef, stack_top: u64, tls: u64, clear_tid: u64) -> (r: TaskRef)
        requires
            old(self).wf(),
            src < old(self)@.arena.len(),
        ensures
            final(self).wf(),
            r == old(self)@.arena.len(),
            r < final(self)@.arena.len(),
            ({
                let s = old(self)@;
                let a = s.arena[src as int];
                final(self)@ == (TableState {
                    arena: s.arena.update(src as int, TaskState { threads: a.threads.push(s.seq), ..a }).push(
                        s.thread_of(src, s.seq, stack_top, tls, clear_tid),
                    ),
                    map: s.map.insert(s.seq, r),
                    seq: s.seq.wrapping_add(1),
                    ..s
                })
            }),
    {
        let ghost s0 = self@;
        let id: u64 = self.next_id();
        let ghost a = s0.arena[src as int];
        assert(self.arena@[src as int]@ == a);
        let p = &self.arena[src];
        let mut t = Task::make(id, p.info.tag.as_str());
        let mut ctx = ThdCtx::default();
        ctx.uctx.set_ret(0);
        ctx.uctx.set_sp(stack_top);
        ctx.uctx.set_tls(tls);
        ctx.clear_tid = clear_tid;
        ctx.smask = p.sig_mask;
        t.thd_ctx = Some(ctx);
        t.vm_token = p.vm_token;
        assert(t@ =~= s0.thread_of(src, id, stack_top, tls, clear_tid));
        let r = self.enlist(id, t);
        let ghost s1 = self@;
        assert(self.arena@[src as int]@ == s1.arena[src as int]);
        self.arena[src].threads.push(id);
        proof {
            assert(self.arena@[src as int]@ =~= (TaskState { threads: a.threads.push(id), ..a }));
            assert(self@.arena =~= s1.arena.update(src as int, TaskState { threads: a.threads.push(id), ..a }));
            assert(self@.arena =~= s0.arena.update(src as int, TaskState { threads: a.threads.push(id), ..a }).push(
                s0.thread_of(src, id, stack_top, tls, clear_tid),
            ));
            lemma_linked(s1, self@);
        }
        r
    }

    /// Makes a user process for the program at `path`: arguments and environment are on its stack,
    /// and its first three descriptors are the terminal.
    pub fn new_user_task(&mut self, heap: &mut FileHeap, path: &str, args: Vec<String>, envs: Vec<String>) -> (r: TaskRef)
        requires
            old(self).wf(),
            old(heap).wf(),
            crate::proc_init::stack_fits(args@, envs@, 0, user_top()),
        ensures
            final(self).wf(),
            final(heap).wf(),
            r == old(self)@.arena.len(),
            r < final(self)@.arena.len(),
            final(self)@ == ({
                let s = old(self)@.spawned(path@);
                s.with(
                    r,
                    TaskState {
                        exec_path: path@,
                        thd_ctx: Some(
                            ThdState {
                                regs: zero_regs().with(
                                    crate::consts::N_REGS - 1,
                                    crate::proc_init::stack_pointer(args@, envs@, 0, user_top()) as u64,
                                ),
                                clear_tid: 0,
                                smask: 0,
                            },
                        ),
                        files: tty_files(old(heap)@),
                        pid: Pid(old(self)@.seq),
                        threads: seq![old(self)@.seq],
                        ..s.arena[r as int]
                    },
                )
            }),
            final(heap)@ == with_tty(old(heap)@),
    {
        let ghost s0 = self@;
        let ghost h0 = heap@;
        let id: u64 = self.next_id();
        let mut t = Task::make(id, path);
        t.exec_path = path.to_owned();
        let init = ProcInit { args, envs, auxv: OrdMap::new() };
        proof {
            init.auxv.lemma_key_seq();
            assert(init.auxv@.len() == 0);
        }
        let sp: u64 = init.push_at(USR_STK_OFF + USR_STK_SZ);
        let mut ctx = ThdCtx::default();
        ctx.uctx.set_sp(sp);
        t.thd_ctx = Some(ctx);
        let fd0 = FHandle::new(heap, "/dev/tty", FdOpt { rd: true, wr: false, ap: false, nb: false }, false, false);
        let fd1 = FHandle::new(heap, "/dev/tty", FdOpt { rd: false, wr: true, ap: false, nb: false }, false, false);
        let fd2 = fd1.dup(false);
        let _ = t.put_file(0, FLike::File(fd0));
        let _ = t.put_file(1, FLike::File(fd1));
        let _ = t.put_file(2, FLike::File(fd2));
        t.pid = Pid(id);
        t.threads.push(id);
        proof {
            assert(heap@ =~= with_tty(h0));
            assert(t@.files =~= tty_files(h0));
            assert(t@.threads =~= seq![id]);
        }
        let ghost made = t@;
        let r = self.enlist(id, t);
        proof {
            let s = s0.spawned(path@);
            assert(self@ =~= s.with(r, made));
        }
        r
    }

    /// Ends the task under `id` and reaps it; tells whether there was one.
    pub fn terminate_and_collect(&mut self, heap: &mut FileHeap, id: u64, code: u64) -> (found: bool)
        requires
            old(self).wf(),
            old(heap).wf(),
            old(self)@.map.dom().contains(id) ==> old(self)@.arena[old(self)@.map[id] as int].valid(old(heap)@)
                && closable_times(old(heap)@, old(self)@.arena[old(self)@.map[id] as int].files.len() as int),
        ensures
            final(self).wf(),
            final(heap).wf(),
            found == old(self)@.map.dom().contains(id),
            !found ==> final(self)@ == old(self)@ && final(heap)@ == old(heap)@,
            found ==> {
                let t = old(self)@.map[id];
                let refs = open_refs(old(self)@.arena[t as int].files);
                &&& final(self)@ == old(self)@.exited(t, code).reaped(id)
                &&& final(heap)@ == closed_all(old(heap)@, refs, refs.len() as int)
            },
    {
        match self.find(id) {
            Some(t) => {
                Task::exit_proc(self, heap, t, code);
                self.reap(id);
                true
            },
            None => false,
        }
    }

    /// The numbers whose tasks have ended, or have not.
    fn ids_of(&self, done: bool) -> (v: Vec<u64>)
        requires
            self.wf(),
        ensures
            v@ == crate::seqs::sorted_keys(self@.map).filter(ended(self@, done)),
            forall|i: int| 0 <= i < v@.len() ==> self@.map.dom().contains(#[trigger] v@[i]),
    {
        let keys = self.map.keys();
        let ghost p = ended(self@, done);
        let mut v: Vec<u64> = Vec::new();
        let mut i: usize = 0;
        proof {
            self.map.lemma_key_seq();
            crate::seqs::lemma_sorted_keys(self.map.key_seq(), self@.map);
            crate::seqs::lemma_filter_ends(keys@, p);
        }
        while i < keys.len()
            invariant
                self.wf(),
                i <= keys@.len(),
                keys@ == self.map.key_seq(),
                p == ended(self@, done),
                v@ == keys@.take(i as int).filter(p),
                forall|i: int| 0 <= i < v@.len() ==> self@.map.dom().contains(#[trigger] v@[i]),
            decreases keys@.len() - i,
        {
            proof {
                crate::seqs::lemma_filter_step(keys@, i as int, p);
                self.map.lemma_key_seq();
                assert(self@.map.dom().contains(self.map.key_seq()[i as int]));
            }
            let k: u64 = keys[i];
            let t: usize = *self.map.val_at(i);
            assert(self.arena@[t as int]@ == self@.arena[t as int]);
            if self.arena[t].done() == done {
                v.push(k);
            }
            i += 1;
        }
        proof {
            crate::seqs::lemma_filter_ends(keys@, p);
        }
        v
    }

    /// The numbers whose tasks have not ended.
    pub fn active_tasks(&self) -> (v: Vec<u64>)
        requires
            self.wf(),
        ensures
            v@ == crate::seqs::sorted_keys(self@.map).filter(ended(self@, false)),
            forall|i: int| 0 <= i < v@.len() ==> self@.map.dom().contains(#[trigger] v@[i]),
    {
        self.ids_of(false)
    }

    /// The numbers whose tasks have ended.
    pub fn zombie_tasks(&self) -> (v: Vec<u64>)
        requires
            self.wf(),
        ensures
            v@ == crate::seqs::sorted_keys(self@.map).filter(ended(self@, true)),
            forall|i: int| 0 <= i < v@.len() ==> self@.map.dom().contains(#[trigger] v@[i]),
    {
        self.ids_of(true)
    }

    /// Sends a signal to the tasks `g`.
    pub fn signal_all(&mut self, g: &Vec<TaskRef>, signo: i32, sender: i64)
        requires
            old(self).wf(),
            forall|i: int| 0 <= i < g@.len() ==> (#[trigger] g@[i]) < old(self)@.arena.len(),
        ensures
            final(self).wf(),
            final(self)@ == old(self)@.signalled(g@, signo, sender, g@.len() as int),
            final(self)@.arena.len() == old(self)@.arena.len(),
            final(self)@.map == old(self)@.map,
    {
        let ghost s0 = self@;
        let mut n: usize = 0;
        while n < g.len()
            invariant
                self.wf(),
                n <= g@.len(),
                forall|i: int| 0 <= i < g@.len() ==> (#[trigger] g@[i]) < s0.arena.len(),
                self@ == s0.signalled(g@, signo, sender, n as int),
                self@.arena.len() == s0.arena.len(),
                self@.map == s0.map,
            decreases g@.len() - n,
        {
            self.signal_one(g[n], signo, sender);
            n += 1;
        }
    }

    /// Sends a signal to one task.
    pub fn signal_one(&mut self, t: TaskRef, signo: i32, sender: i64)
        requires
            old(self).wf(),
            t < old(self)@.arena.len(),
        ensures
            final(self).wf(),
            final(self)@ == old(self)@.with(t, old(self)@.arena[t as int].signalled(signo, sender)),
    {
        let ghost s = self@;
        assert(self.arena@[t as int]@ == s.arena[t as int]);
        self.arena[t].send_sig(signo, sender);
        proof {
            let s2 = s.with(t, s.arena[t as int].signalled(signo, sender));
            assert(self@.arena =~= s2.arena);
            assert(self@ =~= s2);
            lemma_linked(s, s2);
        }
    }

    /// Sends a signal to every task of a group; gives how many there are.
    pub fn send_signal_group(&mut self, pgid: Pgid, signo: i32) -> (n: usize)
        requires
            old(self).wf(),
        ensures
            final(self).wf(),
            ({
                let g = old(self)@.members().filter(grouped(old(self)@.arena, pgid));
                n == g.len() && final(self)@ == old(self)@.signalled(g, signo, (-1int) as i64, g.len() as int)
            }),
            final(self)@.arena.len() == old(self)@.arena.len(),
            final(self)@.map == old(self)@.map,
    {
        let g = self.pgid_group(pgid);
        self.signal_all(&g, signo, -1);
        g.len()
    }

    /// How many numbers are in use.
    pub fn count(&self) -> (n: usize)
        requires
            self.wf(),
        ensures
            n == self@.map.len(),
    {
        self.map.len()
    }
}

impl Task {
    /// Ends task `t` with `code`: closes its files, tells it and its parent, keeps the code, and
    /// ends its threads.
    pub fn exit_proc(tasks: &mut TaskTable, heap: &mut FileHeap, t: TaskRef, code: u64)
        requires
            old(tasks).wf(),
            old(heap).wf(),
            t < old(tasks)@.arena.len(),
            old(tasks)@.arena[t as int].valid(old(heap)@),
            closable_times(old(heap)@, old(tasks)@.arena[t as int].files.len() as int),
        ensures
            final(tasks).wf(),
            final(heap).wf(),
            final(tasks)@ == old(tasks)@.exited(t, code),
            final(heap)@ == closed_all(
                old(heap)@,
                open_refs(old(tasks)@.arena[t as int].files),
                open_refs(old(tasks)@.arena[t as int].files).len() as int,
            ),
            same_extent(final(heap)@, old(heap)@),
            old(tasks)@.valid(old(heap)@) ==> final(tasks)@.valid(final(heap)@),
    {
        let ghost s0 = tasks@;
        let ghost a = s0.arena[t as int];
        assert(tasks.arena@[t as int]@ == a);
        tasks.arena[t].close_all(heap);
        tasks.arena[t].ev.set(EvFlag::PROC_QUIT);
        let parent = tasks.arena[t].parent;
        let ghost s1 = s0.with(t, TaskState { files: Map::empty(), ev: a.ev.changed_by(0, EvFlag::PROC_QUIT), ..a });
        proof {
            assert(tasks.arena@[t as int]@ =~= s1.arena[t as int]);
            assert(tasks@.arena =~= s1.arena);
            assert(s0.arena[t as int].parent matches Some(p) ==> p < s0.arena.len());
        }
        match parent {
            Some(p) => {
                assert(tasks.arena@[p as int]@ == s1.arena[p as int]);
                tasks.arena[p].ev.set(EvFlag::CHILD_QUIT);
            },
            None => {},
        }
        let ghost s2 = match a.parent {
            Some(p) => {
                let b = s1.arena[p as int];
                s1.with(p, TaskState { ev: b.ev.changed_by(0, EvFlag::CHILD_QUIT), ..b })
            },
            None => s1,
        };
        proof {
            if let Some(p) = a.parent {
                assert(tasks.arena@[p as int]@ =~= s2.arena[p as int]);
            }
            assert(tasks@.arena =~= s2.arena);
            assert(tasks.arena@[t as int]@ == s2.arena[t as int]);
        }
        tasks.arena[t].exit_code = code;
        tasks.arena[t].threads = Vec::new();
        tasks.arena[t].info.status = Some((code % 256) as i32);
        proof {
            let s3 = s0.exited(t, code);
            assert(tasks.arena@[t as int]@ =~= s3.arena[t as int]);
            assert(tasks@.arena =~= s3.arena);
            assert(tasks@ =~= s3);
            lemma_linked(s0, s3);
            if s0.valid(old(heap)@) {
                assert forall|i: int| 0 <= i < s3.arena.len() implies (#[trigger] s3.arena[i]).valid(heap@) by {
                    assert(s0.arena[i].valid(old(heap)@));
                    assert forall|k: u64| #[trigger] s3.arena[i].files.dom().contains(k) implies s3.arena[i].files[k].refers(heap@) by {
                        assert(s0.arena[i].files.dom().contains(k));
                    }
                }
            }
        }
    }
}

/// The semaphores and shared memories of a task are there and can be held once more.
pub open spec fn inheritable(a: TaskState, sems: SemHeapState, shms: ShmHeapState) -> bool {
    &&& forall|k: u64| #[trigger] a.sems.dom().contains(k) ==> a.sems[k] < sems.refs.len()
    &&& forall|k: u64| #[trigger] a.shms.dom().contains(k) ==> a.shms[k].pages < shms.refs.len()
    &&& forall|i: int| 0 <= i < sems.refs.len() ==> (#[trigger] sems.refs[i]) + a.sems.len() <= u64::MAX
    &&& forall|i: int| 0 <= i < shms.refs.len() ==> (#[trigger] shms.refs[i]) + a.shms.len() <= u64::MAX
}

/// The semaphores after a child of `a` holds them, too.
pub open spec fn sems_inherited(h: SemHeapState, a: TaskState) -> SemHeapState {
    let t = crate::ipc::targets(a.sems);
    SemHeapState { refs: crate::ipc::held(h.refs, t, t.len() as int), ..h }
}

/// The shared memories after a child of `a` holds them, too.
pub open spec fn shms_inherited(h: ShmHeapState, a: TaskState) -> ShmHeapState {
    let t = crate::ipc::shm_targets(a.shms);
    ShmHeapState { refs: crate::ipc::held(h.refs, t, t.len() as int), ..h }
}

/// The top of a user's stack.
pub open spec fn user_top() -> u64 {
    (USR_STK_OFF + USR_STK_SZ) as u64
}

/// How the terminal is opened for reading.
pub open spec fn tty_in() -> FdOpt {
    FdOpt { rd: true, wr: false, ap: false, nb: false }
}

/// How the terminal is opened for writing.
pub open spec fn tty_out() -> FdOpt {
    FdOpt { rd: false, wr: true, ap: false, nb: false }
}

/// A handle of the terminal, `n` handles behind those in `h`.
pub open spec fn tty_ref(h: HeapState, n: int) -> FRef {
    FRef::File(
        FileRef {
            path: "/dev/tty"@,
            ino: 0,
            data: (h.datas.len() + n) as usize,
            desc: (h.descs.len() + n) as usize,
            pipe: false,
            cloexec: false,
        },
    )
}

/// The first three descriptors of a user process: input, and twice the same output.
pub open spec fn tty_files(h: HeapState) -> Map<u64, FRef> {
    Map::<u64, FRef>::empty().insert(0, tty_ref(h, 0)).insert(1, tty_ref(h, 1)).insert(2, tty_ref(h, 1))
}

/// What is shared after the terminal was opened for reading and for writing.
pub open spec fn with_tty(h: HeapState) -> HeapState {
    HeapState {
        datas: h.datas.push(Seq::empty()).push(Seq::empty()),
        descs: h.descs.push(FdState { off: 0, opt: tty_in(), flk: 0 }).push(FdState { off: 0, opt: tty_out(), flk: 0 }),
        ..h
    }
}

/// Duplicates of all files.
fn dup_files(m: &OrdMap<FLike>) -> (r: OrdMap<FLike>)
    requires
        m.wf(),
        forall|k: u64| #[trigger] m@.dom().contains(k) ==> m@[k].wf(),
    ensures
        r.wf(),
        r@.dom() == m@.dom(),
        forall|k: u64| #[trigger] r@.dom().contains(k) ==> r@[k].wf() && r@[k]@ == m@[k]@.duplicate(false),
{
    let mut r: OrdMap<FLike> = OrdMap::new();
    let n = m.len();
    let mut i: usize = 0;
    proof {
        m.lemma_key_seq();
    }
    while i < n
        invariant
            m.wf(),
            r.wf(),
            n == m.key_seq().len(),
            i <= n,
            forall|k: u64| #[trigger] m@.dom().contains(k) ==> m@[k].wf(),
            forall|k: u64| #[trigger] r@.dom().contains(k) <==> m.key_seq().take(i as int).contains(k),
            forall|k: u64| #[trigger] r@.dom().contains(k) ==> r@[k].wf() && r@[k]@ == m@[k]@.duplicate(false),
        decreases n - i,
    {
        let k: u64 = m.key_at(i);
        let ghost before = m.key_seq().take(i as int);
        let d = m.val_at(i).dup(false);
        let _ = r.insert(k, d);
        i += 1;
        proof {
            let now = m.key_seq().take(i as int);
            assert(now =~= before.push(k));
            assert forall|q: u64| #[trigger] r@.dom().contains(q) <==> now.contains(q) by {
                if before.contains(q) {
                    let j = choose|j: int| 0 <= j < before.len() && before[j] == q;
                    assert(now[j] == q);
                }
                if q == k {
                    assert(now[before.len() as int] == q);
                }
                if now.contains(q) && q != k {
                    let j = choose|j: int| 0 <= j < now.len() && now[j] == q;
                    assert(before[j] == q);
                }
            }
        }
    }
    proof {
        assert(m.key_seq().take(n as int) =~= m.key_seq());
        m.lemma_key_seq();
        assert(r@.dom() =~= m@.dom());
    }
    r
}

/// Links that were not touched still lead to tasks.
pub proof fn lemma_linked(a: TableState, b: TableState)
    requires
        a.linked(),
        b.arena.len() == a.arena.len(),
        b.map == a.map,
        b.root == a.root,
        forall|i: int| 0 <= i < a.arena.len() ==> (#[trigger] b.arena[i]).parent == a.arena[i].parent,
        forall|i: int| 0 <= i < a.arena.len() ==> (#[trigger] b.arena[i]).subtasks == a.arena[i].subtasks,
    ensures
        b.linked(),
{
    assert forall|i: int, j: int|
        #![trigger b.arena[i].subtasks[j]]
        0 <= i < b.arena.len() && 0 <= j < b.arena[i].subtasks.len() implies b.arena[i].subtasks[j] < b.arena.len() by {
        assert(a.arena[i].subtasks[j] < a.arena.len());
    }
    assert forall|i: int| 0 <= i < b.arena.len() implies ((#[trigger] b.arena[i]).parent matches Some(p) ==> p
        < b.arena.len()) by {
        assert(a.arena[i].parent matches Some(p) ==> p < a.arena.len());
    }
}

/// The same where some tasks lost their children.
proof fn lemma_linked_drop(a: TableState, b: TableState)
    requires
        a.linked(),
        b.arena.len() == a.arena.len(),
        b.map == a.map,
        b.root == a.root,
        forall|i: int| 0 <= i < a.arena.len() ==> (#[trigger] b.arena[i]).parent == a.arena[i].parent,
        forall|i: int|
            0 <= i < a.arena.len() ==> (#[trigger] b.arena[i]).subtasks == a.arena[i].subtasks || b.arena[i].subtasks.len() == 0,
    ensures
        b.linked(),
{
    assert forall|i: int, j: int|
        #![trigger b.arena[i].subtasks[j]]
        0 <= i < b.arena.len() && 0 <= j < b.arena[i].subtasks.len() implies b.arena[i].subtasks[j] < b.arena.len() by {
        assert(a.arena[i].subtasks[j] < a.arena.len());
    }
    assert forall|i: int| 0 <= i < b.arena.len() implies ((#[trigger] b.arena[i]).parent matches Some(p) ==> p
        < b.arena.len()) by {
        assert(a.arena[i].parent matches Some(p) ==> p < a.arena.len());
    }
}

/// Adopting tasks changes only who belongs to whom.
pub proof fn lemma_adopted_keeps(s: TableState, ch: Seq<TaskRef>, r: TaskRef, n: int)
    requires
        0 <= n <= ch.len(),
        r < s.arena.len(),
        forall|j: int| 0 <= j < ch.len() ==> (#[trigger] ch[j]) < s.arena.len(),
    ensures
        s.adopted(ch, r, n).arena.len() == s.arena.len(),
        s.adopted(ch, r, n).map == s.map,
        s.adopted(ch, r, n).seq == s.seq,
        s.adopted(ch, r, n).root == s.root,
        s.linked() ==> s.adopted(ch, r, n).linked(),
        forall|i: int|
            0 <= i < s.arena.len() ==> {
                let a = #[trigger] s.adopted(ch, r, n).arena[i];
                &&& a == (TaskState { parent: a.parent, subtasks: a.subtasks, ..s.arena[i] })
                &&& s.arena[i].subtasks.len() <= a.subtasks.len()
                &&& s.arena[i].subtasks == a.subtasks.take(s.arena[i].subtasks.len() as int)
            },
    decreases n,
{
    if n > 0 {
        lemma_adopted_keeps(s, ch, r, n - 1);
        let before = s.adopted(ch, r, n - 1);
        let after = s.adopted(ch, r, n);
        assert forall|i: int| 0 <= i < s.arena.len() implies {
            let a = #[trigger] after.arena[i];
            &&& a == (TaskState { parent: a.parent, subtasks: a.subtasks, ..s.arena[i] })
            &&& s.arena[i].subtasks.len() <= a.subtasks.len()
            &&& s.arena[i].subtasks == a.subtasks.take(s.arena[i].subtasks.len() as int)
        } by {
            let m = s.arena[i].subtasks.len() as int;
            assert(before.arena[i].subtasks.take(m) == s.arena[i].subtasks);
            assert(after.arena[i].subtasks.take(m) =~= before.arena[i].subtasks.take(m));
        }
        if s.linked() {
            assert forall|i: int, j: int|
                #![trigger after.arena[i].subtasks[j]]
                0 <= i < after.arena.len() && 0 <= j < after.arena[i].subtasks.len() implies after.arena[i].subtasks[j]
                < after.arena.len() by {
                if j < before.arena[i].subtasks.len() {
                    assert(before.arena[i].subtasks[j] < before.arena.len());
                }
            }
            assert forall|i: int| 0 <= i < after.arena.len() implies ((#[trigger] after.arena[i]).parent matches Some(p)
                ==> p < after.arena.len()) by {
                assert(before.arena[i].parent matches Some(p) ==> p < before.arena.len());
            }
        }
    } else {
        assert forall|i: int| 0 <= i < s.arena.len() implies (#[trigger] s.arena[i]).subtasks == s.arena[i].subtasks.take(
            s.arena[i].subtasks.len() as int,
        ) by {
            assert(s.arena[i].subtasks.take(s.arena[i].subtasks.len() as int) =~= s.arena[i].subtasks);
        }
    }
}

/// Reaping keeps the files and the address spaces of all tasks, and, if the task has ended, which
/// tasks have.
pub proof fn lemma_reaped_keeps(s: TableState, id: u64)
    requires
        s.linked(),
    ensures
        s.reaped(id).arena.len() == s.arena.len(),
        forall|i: int|
            0 <= i < s.arena.len() ==> (#[trigger] s.reaped(id).arena[i]).files == s.arena[i].files && s.reaped(id).arena[i].space
                == s.arena[i].space,
        s.reaped(id).map == s.map.remove(id),
        s.reaped(id).linked(),
        s.map.dom().contains(id) && s.arena[s.map[id] as int].status is Some ==> forall|i: int|
            0 <= i < s.arena.len() ==> ((#[trigger] s.reaped(id).arena[i]).status is Some <==> s.arena[i].status is Some),
{
    if s.map.dom().contains(id) {
        let t = s.map[id];
        let a = s.arena[t as int];
        let s1 = s.with(t, TaskState { status: Some(0), subtasks: Seq::empty(), ..a });
        assert forall|j: int| 0 <= j < a.subtasks.len() implies (#[trigger] a.subtasks[j]) < s1.arena.len() by {
            assert(s.arena[t as int].subtasks[j] < s.arena.len());
        }
        lemma_linked_drop(s, s1);
        if let Some(r) = s.root {
            lemma_adopted_keeps(s1, a.subtasks, r, a.subtasks.len() as int);
        }
        let s2 = match s.root {
            Some(r) => s1.adopted(a.subtasks, r, a.subtasks.len() as int),
            None => s1,
        };
        let s3 = s.reaped(id);
        assert forall|i: int, j: int|
            #![trigger s3.arena[i].subtasks[j]]
            0 <= i < s3.arena.len() && 0 <= j < s3.arena[i].subtasks.len() implies s3.arena[i].subtasks[j] < s3.arena.len() by {
            assert(s2.arena[i].subtasks[j] < s2.arena.len());
        }
    } else {
        assert(s.map.remove(id) =~= s.map);
    }
}

/// Who the children of whom are after some were handed over.
pub proof fn lemma_adopted(s: TableState, ch: Seq<TaskRef>, r: TaskRef, n: int)
    requires
        0 <= n <= ch.len(),
        r < s.arena.len(),
        forall|j: int| 0 <= j < ch.len() ==> (#[trigger] ch[j]) < s.arena.len(),
    ensures
        s.adopted(ch, r, n).arena.len() == s.arena.len(),
        s.adopted(ch, r, n).map == s.map,
        s.adopted(ch, r, n).root == s.root,
        s.adopted(ch, r, n).arena[r as int].subtasks == s.arena[r as int].subtasks + ch.take(n),
        forall|j: int| 0 <= j < n ==> s.adopted(ch, r, n).arena[(#[trigger] ch[j]) as int].parent == Some(r),
    decreases n,
{
    if n > 0 {
        lemma_adopted(s, ch, r, n - 1);
        assert(ch.take(n) =~= ch.take(n - 1).push(ch[n - 1]));
        assert(s.arena[r as int].subtasks + ch.take(n) =~= (s.arena[r as int].subtasks + ch.take(n - 1)).push(ch[n - 1]));
    } else {
        assert(s.arena[r as int].subtasks + ch.take(0) =~= s.arena[r as int].subtasks);
    }
}

/// When a task is reaped, the first process becomes the parent of its children, and its number is
/// free.
pub proof fn law_reap_reparents(s: TableState, id: u64)
    requires
        s.linked(),
        s.map.dom().contains(id),
        s.root is Some,
        s.map[id] != s.root->0,
    ensures
        ({
            let a = s.arena[s.map[id] as int];
            let r = s.root->0;
            let after = s.reaped(id);
            &&& !after.map.dom().contains(id)
            &&& forall|j: int| 0 <= j < a.subtasks.len() ==> after.arena[(#[trigger] a.subtasks[j]) as int].parent == Some(r)
            &&& after.arena[r as int].subtasks == s.arena[r as int].subtasks + a.subtasks
            &&& after.arena.len() == s.arena.len()
        }),
{
    let t = s.map[id];
    let a = s.arena[t as int];
    let r = s.root->0;
    let s1 = s.with(t, TaskState { status: Some(0), subtasks: Seq::empty(), ..a });
    assert forall|j: int| 0 <= j < a.subtasks.len() implies (#[trigger] a.subtasks[j]) < s1.arena.len() by {
        assert(s.arena[t as int].subtasks[j] < s.arena.len());
    }
    lemma_adopted(s1, a.subtasks, r, a.subtasks.len() as int);
    assert(a.subtasks.take(a.subtasks.len() as int) =~= a.subtasks);
}

/// A task that has ended is listed as such, until it is reaped; its parent has been told.
pub proof fn law_exit_leaves_zombie(s: TableState, id: u64, code: u64)
    requires
        s.linked(),
        s.map.dom().contains(id),
    ensures
        ({
            let t = s.map[id];
            let after = s.exited(t, code);
            &&& ended(after, true)(id)
            &&& after.map.dom().contains(id)
            &&& after.arena[t as int].exit_code == code
            &&& after.arena[t as int].files == Map::<u64, FRef>::empty()
            &&& s.arena[t as int].parent matches Some(p) ==> after.arena[p as int].ev.ev & EvFlag::CHILD_QUIT != 0
            &&& !after.reaped(id).map.dom().contains(id)
        }),
{
    let t = s.map[id];
    let a = s.arena[t as int];
    if let Some(p) = a.parent {
        let s1 = s.with(t, TaskState { files: Map::empty(), ev: a.ev.changed_by(0, EvFlag::PROC_QUIT), ..a });
        let e = s1.arena[p as int].ev.ev;
        assert(((e & !0u32) | 2048u32) & 2048u32 != 0) by (bit_vector);
    }
    let after = s.exited(t, code);
    if let Some(r) = after.root {
        let b = after.arena[t as int];
        assert forall|j: int| 0 <= j < b.subtasks.len() implies (#[trigger] b.subtasks[j]) < after.arena.len() by {
            assert(s.arena[t as int].subtasks[j] < s.arena.len());
        }
        lemma_adopted(
            after.with(t, TaskState { status: Some(0), subtasks: Seq::empty(), ..b }),
            b.subtasks,
            r,
            b.subtasks.len() as int,
        );
    }
}

/// A forked child has the parent's descriptors, which refer to the same files and pipes; the parent
/// keeps its own, and knows the child.
pub proof fn law_fork_shares_files(s: TableState, src: TaskRef)
    requires
        src < s.arena.len(),
        s.arena.len() < usize::MAX,
    ensures
        ({
            let n = s.arena.len();
            let after = s.forked(src);
            let parent = s.arena[src as int];
            let child = after.arena[n as int];
            &&& child.files.dom() == parent.files.dom()
            &&& forall|k: u64| #[trigger]
                parent.files.dom().contains(k) ==> child.files[k] == parent.files[k].duplicate(false)
            &&& after.arena[src as int].files == parent.files
            &&& child.parent == Some(src)
            &&& after.arena[src as int].subtasks == parent.subtasks.push(n as usize)
            &&& after.map[s.seq] == n
        }),
{
    let after = s.forked(src);
    assert(after.arena[s.arena.len() as int].files.dom() =~= s.arena[src as int].files.dom());
}

/// A signal to any thread that is not blocked counts for the task it was sent to.
pub proof fn law_signal_arrives(t: TaskState, signo: i32)
    requires
        0 <= signo < 64,
        !crate::utils::on(t.sig_mask, signo as u32),
    ensures
        ({
            let after = t.signalled(signo, (-1int) as i64);
            exists|i: int|
                0 <= i < after.sig_queue.len() && sig_counts(#[trigger] after.sig_queue[i], after.id, after.sig_mask)
        }),
{
    let after = t.signalled(signo, (-1int) as i64);
    let i = t.sig_queue.len() as int;
    assert(sig_counts(after.sig_queue[i], after.id, after.sig_mask));
}

/// The number of a new task leads to it.
pub proof fn law_spawn_then_find(s: TableState, tag: Seq<char>)
    requires
        s.arena.len() < usize::MAX,
    ensures
        s.spawned(tag).map[s.seq] == s.arena.len(),
        s.spawned(tag).arena[s.arena.len() as int] == TaskState::fresh(s.seq, tag),
        forall|k: u64| k != s.seq && #[trigger] s.map.dom().contains(k) ==> s.spawned(tag).map[k] == s.map[k],
{
}

/// A thread starts with the stack and the local storage that it was given, returns zero from the
/// call that made it, and blocks the signals that its maker blocks; all other registers are zero.
pub proof fn law_thread_has_own_stack(s: TableState, src: TaskRef, id: u64, stack_top: u64, tls: u64, clear_tid: u64, i: int)
    requires
        0 <= i < crate::consts::N_REGS - 2,
    ensures
        ({
            let t = s.thread_of(src, id, stack_top, tls, clear_tid);
            let c = t.thd_ctx->0;
            &&& t.id == id && t.thd_ctx is Some
            &&& c.regs.r[crate::consts::N_REGS - 1] == stack_top
            &&& c.regs.r[crate::consts::N_REGS - 2] == tls
            &&& c.regs.r[i] == 0
            &&& c.clear_tid == clear_tid && c.smask == s.arena[src as int].sig_mask
        }),
{
}

/// A new user process reads the terminal at descriptor 0 and writes it at 1 and 2, which are the
/// same open file; nothing else is open, and what was shared before stays.
pub proof fn law_terminal_is_open(h: HeapState, fd: u64)
    requires
        h.descs.len() + 1 < usize::MAX,
        h.datas.len() + 1 < usize::MAX,
    ensures
        ({
            let m = tty_files(h);
            let h1 = with_tty(h);
            let a = m[0]->File_0;
            let b = m[1]->File_0;
            &&& m.dom().contains(fd) <==> fd <= 2
            &&& m[0] is File && m[1] is File && m[2] == m[1]
            &&& a.valid(h1) && b.valid(h1) && a.desc != b.desc
            &&& a.state(h1).opt.rd && !a.state(h1).opt.wr && a.state(h1).off == 0
            &&& b.state(h1).opt.wr && !b.state(h1).opt.rd && b.state(h1).off == 0
            &&& !a.cloexec && !b.cloexec
            &&& h1.descs.take(h.descs.len() as int) == h.descs && h1.pipes == h.pipes
        }),
{
    assert(with_tty(h).descs.take(h.descs.len() as int) =~= h.descs);
}

/// How many of the first `n` handles are ends of pipe `i`.
pub open spec fn ends_of(s: Seq<FRef>, i: int, n: int) -> int
    decreases n,
{
    if n <= 0 {
        0
    } else {
        ends_of(s, i, n - 1) + (if s[n - 1] is Pipe && s[n - 1]->Pipe_0.data == i {
            1int
        } else {
            0
        })
    }
}

/// When handles are closed, each pipe loses one end for every handle of it, keeps what it holds, and
/// nothing else that is shared changes.
pub proof fn law_closing_ends_pipes(h: HeapState, s: Seq<FRef>, i: int, n: int)
    requires
        0 <= n <= s.len(),
        0 <= i < h.pipes.len(),
        forall|k: int| 0 <= k < s.len() ==> (#[trigger] s[k]).refers(h),
        closable_times(h, s.len() as int),
    ensures
        ({
            let h1 = closed_all(h, s, n);
            &&& h1.pipes.len() == h.pipes.len()
            &&& h1.pipes[i].ends == h.pipes[i].ends - ends_of(s, i, n)
            &&& 0 <= ends_of(s, i, n) <= n
            &&& h1.pipes[i].buf == h.pipes[i].buf
            &&& h1.descs == h.descs && h1.datas == h.datas && h1.sets == h.sets
        }),
    decreases n,
{
    if n > 0 {
        law_closing_ends_pipes(h, s, i, n - 1);
        assert(s[n - 1].refers(h));
        assert(h.pipes[i].ends - s.len() >= i32::MIN);
    }
}

/// Looking for tasks by their tag finds just those that have it.
pub proof fn law_tags_find_tasks(s: TableState, tag: Seq<char>, t: TaskRef)
    ensures
        s.members().filter(tagged(s.arena, tag)).contains(t) <==> s.members().contains(t) && s.arena[t as int].tag == tag,
{
    crate::seqs::lemma_filter_contains(s.members(), tagged(s.arena, tag));
}

/// A signal that is blocked does not count for a task, and of the others just those do that were sent to
/// all or to it.
pub proof fn law_blocked_signals_wait(signo: i32, to: u64, id: u64, mask: u64)
    requires
        0 <= signo < 64,
        id < 0x8000_0000_0000_0000,
        to < 0x8000_0000_0000_0000,
    ensures
        sig_counts((signo, -1i64), id, mask) == (mask & (1u64 << (signo as u32)) == 0),
        sig_counts((signo, to as i64), id, mask) == (to == id && mask & (1u64 << (signo as u32)) == 0),
{
}

} // verus!
