//! The kernel: all its parts together, and access to user memory.

use vstd::prelude::*;
use crate::address_space::{AddrSpace, SpaceState};
use crate::cache::{BlockCache, Line};
use crate::clock::{dtk, Clock};
use crate::consts::{KERN_BASE, MAX_CPU, MEM_OFF, N_CHAINS, PAGE_SZ, USR_STK_OFF, USR_STK_SZ, VM_READ, VM_WRITE};
use crate::context::Registers;
use crate::files::{FLike, FRef, FileHeap, HeapState, PipeDir, PipeNode, PipeState};
use crate::fs::{FsView, Inode, InodeType, InodeView, SimpleFS, Slots};
use crate::io::Disk;
use crate::ipc::{shm_get_or_create, SemArr, SemHeap, SemHeapState, ShmHeap, ShmHeapState};
use crate::memory::FramePool;
use crate::mount::{Mount, MountTable};
use crate::ordmap::OrdMap;
use crate::proc_init::ProcInit;
use crate::scheduler::compute_load_balance;
use crate::task::{TableState, TaskRef, TaskState, TaskTable, ThdCtx, ThdState};
use crate::vm::{KStk, PgFrame, VmRegion};

verus! {

/// Characters from the terminal that are kept at most.
pub const TTY_CAP: usize = 4096;

/// The kernel.
pub struct Kernel {
    /// The tasks.
    pub tasks: TaskTable,
    /// What open files share.
    pub heap: FileHeap,
    /// Blocks of the disk in memory.
    pub cache: BlockCache,
    /// The frames of memory.
    pub pool: FramePool,
    /// The task that each CPU runs.
    pub cpus: Vec<Option<TaskRef>>,
    /// What is mounted where.
    pub mnt: MountTable,
    /// Semaphore arrays.
    pub sems: SemHeap,
    /// Shared memories.
    pub shms: ShmHeap,
    /// Characters from the terminal that have not been read.
    pub tty_buf: Vec<u8>,
    /// The disk.
    pub disk: Disk,
    /// The file system.
    pub fs: SimpleFS,
    /// The clocks.
    pub clock: Clock,
}

/// The frames of memory, as values.
#[verifier::ext_equal]
pub struct PoolState {
    /// Which frames are free.
    pub slots: Seq<bool>,
    /// What they hold.
    pub frames: Map<int, Seq<u8>>,
}

/// The kernel, as values.
#[verifier::ext_equal]
pub struct KernelState {
    pub tasks: TableState,
    pub heap: HeapState,
    pub cache: Slots,
    pub chains: Seq<Seq<Line>>,
    pub width: usize,
    pub pool: PoolState,
    pub cpus: Seq<Option<TaskRef>>,
    pub mnt: Seq<Mount>,
    pub sems: SemHeapState,
    pub shms: ShmHeapState,
    pub tty: Seq<u8>,
    pub disk: Disk,
    pub fs: FsView,
    pub clock: Clock,
}

/// Some region that has the permission `flag` holds `addr`.
pub open spec fn mapped_with(s: Seq<VmRegion>, addr: u64, flag: u32) -> bool {
    exists|i: int| #[trigger] crate::address_space::region_at(s, addr, i) && s[i].flags & flag != 0
}

/// The frames of an address space are frames of the pool.
pub open spec fn frames_in(s: SpaceState, n: nat) -> bool {
    forall|a: u64| #[trigger] s.pages.dom().contains(a) ==> s.pages[a].frame_id < n
}

/// The first free frame.
pub open spec fn lowest_frame(slots: Seq<bool>) -> int {
    choose|i: int| crate::memory::first_free(slots, i)
}

/// What becomes of a write to a page.
pub struct Cow {
    /// It can be done.
    pub ok: bool,
    /// The frames of the pages.
    pub pages: Map<u64, PgFrame>,
    /// The frames of memory.
    pub pool: PoolState,
}

/// A write to the page of `addr`: a page with a frame to itself is written there; any other gets a
/// new frame with its contents, if there is one.
pub open spec fn cow(pages: Map<u64, PgFrame>, pool: PoolState, addr: u64) -> Cow {
    let page = crate::address_space::page_of(addr);
    if pages.dom().contains(page) && pages[page].rc <= 1 {
        Cow { ok: true, pages, pool }
    } else if crate::memory::none_free(pool.slots) {
        Cow { ok: false, pages, pool }
    } else {
        let i = lowest_frame(pool.slots);
        Cow {
            ok: true,
            pages: pages.insert(page, PgFrame { frame_id: i as usize, rc: 1 }),
            pool: PoolState {
                slots: pool.slots.update(i, false),
                frames: if pages.dom().contains(page) {
                    pool.frames.insert(i, pool.frames[pages[page].frame_id as int])
                } else {
                    pool.frames
                },
            },
        }
    }
}

/// A frame with `d` written at `off`.
pub open spec fn patched(f: Seq<u8>, off: int, d: Seq<u8>) -> Seq<u8> {
    Seq::new(PAGE_SZ as nat, |i: int| if off <= i < off + d.len() { d[i - off] } else { f[i] })
}

/// How many of `len` bytes from `addr` on lie in the page of `addr`.
pub open spec fn in_page(addr: int, len: int) -> int {
    let room = PAGE_SZ - addr % PAGE_SZ as int;
    if len < room {
        len
    } else {
        room
    }
}

/// The frames after `data` from `off` on has been copied to the user addresses from `start` on,
/// page by page; pages without a frame are passed over.
pub open spec fn poured(frames: Map<int, Seq<u8>>, pages: Map<u64, PgFrame>, start: int, data: Seq<u8>, off: int) -> Map<
    int,
    Seq<u8>,
>
    decreases data.len() - off,
{
    if off >= data.len() {
        frames
    } else {
        let addr = start + off;
        let page = crate::address_space::page_of(addr as u64);
        let n = in_page(addr, data.len() - off);
        let next = if pages.dom().contains(page) {
            let id = pages[page].frame_id as int;
            frames.insert(id, patched(frames[id], addr % PAGE_SZ as int, data.subrange(off, off + n)))
        } else {
            frames
        };
        poured(next, pages, start, data, off + n)
    }
}

/// The byte at the user address `a`, or `d` where the page has no frame.
pub open spec fn user_byte(frames: Map<int, Seq<u8>>, pages: Map<u64, PgFrame>, a: int, d: u8) -> u8 {
    let page = crate::address_space::page_of(a as u64);
    if pages.dom().contains(page) {
        frames[pages[page].frame_id as int][a % PAGE_SZ as int]
    } else {
        d
    }
}

/// The buffer `b` after what is at the user addresses from `start` on has been copied to it.
pub open spec fn scooped(frames: Map<int, Seq<u8>>, pages: Map<u64, PgFrame>, start: int, b: Seq<u8>) -> Seq<u8> {
    Seq::new(b.len(), |i: int| user_byte(frames, pages, start + i, b[i]))
}

impl KernelState {
    /// The task that the first CPU runs.
    pub open spec fn cur(self) -> Option<TaskRef> {
        self.cpus[0]
    }

    /// The running task.
    pub open spec fn cur_state(self) -> TaskState {
        self.tasks.arena[self.cur()->0 as int]
    }

    /// With the running task replaced.
    pub open spec fn with_cur(self, t: TaskState) -> KernelState {
        KernelState { tasks: self.tasks.with(self.cur()->0, t), ..self }
    }

    /// The parts fit together: descriptors refer to something, CPUs run tasks, and the pages of all
    /// tasks have frames of the pool, whose addresses fit the word.
    pub open spec fn sound(self) -> bool {
        &&& self.tasks.valid(self.heap)
        &&& self.cpus.len() == MAX_CPU
        &&& forall|c: int| 0 <= c < self.cpus.len() ==> ((#[trigger] self.cpus[c]) matches Some(t) ==> t < self.tasks.arena.len())
        &&& forall|i: int| 0 <= i < self.tasks.arena.len() ==> frames_in((#[trigger] self.tasks.arena[i]).space, self.pool.slots.len())
        &&& self.pool.slots.len() * PAGE_SZ + MEM_OFF <= u64::MAX
    }

    /// Whether the running task may read or write at `addr`, and the kernel after that has been
    /// seen to: a page that is written gets a frame to itself.
    pub open spec fn faulted(self, addr: u64, writing: bool) -> (bool, KernelState) {
        if self.cur() is None {
            (false, self)
        } else {
            let t = self.cur_state();
            let c = cow(t.space.pages, self.pool, addr);
            if !mapped_with(t.space.regions, addr, if writing { VM_WRITE } else { VM_READ }) {
                (false, self)
            } else if !writing {
                (true, self)
            } else {
                (
                    c.ok,
                    KernelState {
                        pool: c.pool,
                        ..self.with_cur(TaskState { space: SpaceState { pages: c.pages, ..t.space }, ..t })
                    },
                )
            }
        }
    }

    /// The same for `n` pages from `addr` on, until one cannot be accessed.
    pub open spec fn faulted_pages(self, addr: int, n: nat, writing: bool) -> (bool, KernelState)
        decreases n,
    {
        if n == 0 {
            (true, self)
        } else {
            let (ok, k) = self.faulted(addr as u64, writing);
            if !ok {
                (false, k)
            } else {
                k.faulted_pages(addr + PAGE_SZ, (n - 1) as nat, writing)
            }
        }
    }

    /// The same for all pages of the `len` bytes from `start` on.
    pub open spec fn ensured(self, start: u64, len: u64, writing: bool) -> (bool, KernelState) {
        if len == 0 {
            (true, self)
        } else {
            let first = crate::address_space::page_of(start);
            let last = crate::address_space::page_of((start + len - 1) as u64);
            self.faulted_pages(first as int, ((last - first) / PAGE_SZ as int + 1) as nat, writing)
        }
    }
}

impl Kernel {
    /// The kernel as values.
    pub open spec fn view(&self) -> KernelState {
        KernelState {
            tasks: self.tasks@,
            heap: self.heap@,
            cache: self.cache.slots(),
            chains: self.cache@,
            width: self.cache.width,
            pool: pool_state(self.pool),
            cpus: self.cpus@,
            mnt: self.mnt@,
            sems: self.sems@,
            shms: self.shms@,
            tty: self.tty_buf@,
            disk: self.disk,
            fs: self.fs@,
            clock: self.clock,
        }
    }

    /// All parts are well-formed and fit together.
    pub open spec fn wf(&self) -> bool {
        &&& self.tasks.wf()
        &&& self.heap.wf()
        &&& self.cache.wf()
        &&& crate::fs::whole(self.cache.slots())
        &&& self.pool.wf()
        &&& self.sems.wf()
        &&& self.shms.wf()
        &&& self.disk.wf()
        &&& self.fs.wf()
        &&& self@.sound()
    }

    /// A kernel with `nf` frames of memory and nothing else.
    pub fn new(nf: usize) -> (k: Self)
        requires
            nf * PAGE_SZ + MEM_OFF <= u64::MAX,
        ensures
            k.wf(),
            k@.tasks == (TableState { arena: Seq::empty(), map: Map::empty(), seq: 1, root: None }),
            k@.heap == (HeapState { datas: Seq::empty(), descs: Seq::empty(), pipes: Seq::empty(), sets: Seq::empty() }),
            k@.cache == Map::<u64, (Seq<u8>, bool)>::empty(),
            k@.chains == Seq::new(N_CHAINS as nat, |c: int| Seq::<Line>::empty()),
            k@.width == N_CHAINS,
            k@.pool.slots == Seq::new(nf as nat, |i: int| true),
            k@.pool.frames == Map::new(|f: int| true, |f: int| Seq::new(PAGE_SZ as nat, |i: int| 0u8)),
            k@.cpus == Seq::new(MAX_CPU as nat, |i: int| None::<TaskRef>),
            k@.mnt == Seq::<Mount>::empty(),
            k@.sems == (SemHeapState { arrays: Seq::empty(), refs: Seq::empty(), store: Map::empty() }),
            k@.shms == (ShmHeapState { pages: Seq::empty(), refs: Seq::empty(), store: Map::empty() }),
            k@.tty == Seq::<u8>::empty(),
            k@.clock == (Clock { clk: 0, clk_all: 0 }),
            k@.fs.inodes == Map::<u64, InodeView>::empty().insert(0, Inode::fresh(0, InodeType::Directory)),
            k@.fs.next_ino == 1,
            k@.fs.next_blk == 0,
            k@.disk.errs == 0,
            k@.disk.ops == 0,
            k@.disk.label@ == "main"@,
            k@.disk.journal is None,
            k@.disk.blocks@ == Map::<u64, Vec<u8>>::empty(),
    {
        let mut cpus: Vec<Option<TaskRef>> = Vec::new();
        let mut i: usize = 0;
        while i < MAX_CPU
            invariant
                i <= MAX_CPU,
                cpus@.len() == i,
                forall|c: int| 0 <= c < i ==> (#[trigger] cpus@[c]) is None,
            decreases MAX_CPU - i,
        {
            cpus.push(None);
            i += 1;
        }
        let k = Kernel {
            tasks: TaskTable::new(),
            heap: FileHeap::new(),
            cache: BlockCache::new(N_CHAINS),
            pool: FramePool::new(nf),
            cpus,
            mnt: MountTable::new(),
            sems: SemHeap::new(),
            shms: ShmHeap::new(),
            tty_buf: Vec::new(),
            disk: Disk::new("main"),
            fs: SimpleFS::new(),
            clock: Clock::new(),
        };
        assert(k@.cpus =~= Seq::new(MAX_CPU as nat, |i: int| None::<TaskRef>));
        assert(k@.pool.frames =~= Map::new(|f: int| true, |f: int| Seq::new(PAGE_SZ as nat, |i: int| 0u8)));
        k
    }

    /// The task that CPU `cpu` runs.
    pub fn cur_task(&self, cpu: usize) -> (r: Option<TaskRef>)
        requires
            self@.sound(),
        ensures
            r == (if cpu < MAX_CPU { self@.cpus[cpu as int] } else { None }),
            r matches Some(t) ==> t < self@.tasks.arena.len(),
    {
        if cpu >= self.cpus.len() {
            return None;
        }
        self.cpus[cpu]
    }

    /// Sets the task that CPU `cpu` runs.
    pub fn set_cur(&mut self, cpu: usize, t: Option<TaskRef>)
        requires
            old(self).wf(),
            t matches Some(x) ==> x < old(self)@.tasks.arena.len(),
        ensures
            final(self).wf(),
            final(self)@ == (if cpu < MAX_CPU {
                KernelState { cpus: old(self)@.cpus.update(cpu as int, t), ..old(self)@ }
            } else {
                old(self)@
            }),
    {
        if cpu < self.cpus.len() {
            self.cpus.set(cpu, t);
        }
    }

    /// Sees to it that the running task may read at `addr`, or, with bit 1 of `access`, write;
    /// tells whether it may.
    pub fn handle_pgfault(&mut self, addr: u64, access: u8) -> (ok: bool)
        requires
            old(self).wf(),
        ensures
            final(self).wf(),
            (ok, final(self)@) == old(self)@.faulted(addr, access / 2 % 2 == 1),
    {
        let writing = access / 2 % 2 == 1;
        let ghost k0 = self@;
        let t: usize = match self.cur_task(0) {
            Some(t) => t,
            None => {
                return false;
            },
        };
        let ghost a = k0.tasks.arena[t as int];
        let ghost regions = a.space.regions;
        assert(self.tasks.arena@[t as int]@ == a);
        assert(self.tasks.arena@[t as int].wf());
        let found = self.tasks.arena[t].addr_space.vm_map.find_index(addr);
        let i: usize = match found {
            Some(i) => i,
            None => {
                proof {
                    assert forall|j: int| !crate::address_space::region_at(regions, addr, j) by {}
                }
                return false;
            },
        };
        let flags: u32 = self.tasks.arena[t].addr_space.vm_map.regions[i].flags;
        proof {
            assert(crate::address_space::region_at(regions, addr, i as int));
            assert forall|j: int| crate::address_space::region_at(regions, addr, j) implies j == i by {
                if j < i {
                    assert(regions[j].stop() <= regions[i as int].base);
                } else if i < j {
                    assert(regions[i as int].stop() <= regions[j].base);
                }
            }
        }
        if writing && (flags & VM_WRITE) == 0 {
            return false;
        }
        if !writing && (flags & VM_READ) == 0 {
            return false;
        }
        if !writing {
            return true;
        }
        let ghost pool0 = self.pool;
        proof {
            assert(frames_in(a.space, k0.pool.slots.len()));
            assert forall|p: u64| a.space.pages.dom().contains(p) implies (#[trigger] a.space.pages[p]).frame_id
                < self.pool.slots@.len() by {}
        }
        let r = self.tasks.arena[t].addr_space.handle_cow_fault(addr, &mut self.pool);
        proof {
            let c = cow(a.space.pages, k0.pool, addr);
            let after = k0.faulted(addr, true);
            assert(crate::address_space::writable_at(regions, addr));
            let slots = pool0.slots@;
            let page = crate::address_space::page_of(addr);
            let lf = lowest_frame(slots);
            if !(a.space.pages.dom().contains(page) && a.space.pages[page].rc <= 1) && !crate::memory::none_free(slots) {
                assert(crate::memory::first_free(slots, lf));
                assert forall|j: int| crate::memory::first_free(slots, j) implies j == lf by {
                    if j < lf {
                        assert(!slots[j]);
                    } else if lf < j {
                        assert(!slots[lf]);
                    }
                }
            }
            assert(pool_state(self.pool).slots =~= c.pool.slots);
            assert forall|f: int| pool_state(self.pool).frames[f] == c.pool.frames[f] by {
                assert(pool_state(pool0).frames[f] == pool0.frame(f));
                if a.space.pages.dom().contains(page) {
                    let src = a.space.pages[page].frame_id as int;
                    assert(pool_state(pool0).frames[src] == pool0.frame(src));
                }
            }
            assert(pool_state(self.pool) =~= c.pool);
            assert(self.tasks.arena@[t as int].addr_space.cow_pages@ =~= c.pages);
            assert((r is Ok) == c.ok);
            let b = TaskState { space: SpaceState { pages: c.pages, ..a.space }, ..a };
            assert(self.tasks.arena@[t as int]@ =~= b);
            assert(self.tasks@.arena =~= k0.tasks.arena.update(t as int, b));
            assert(self.tasks@ =~= k0.tasks.with(t, b));
            crate::task::lemma_linked(k0.tasks, self.tasks@);
            assert(self@ =~= after.1);
        }
        r.is_ok()
    }
}

/// The frames of memory, as values.
pub open spec fn pool_state(p: FramePool) -> PoolState {
    PoolState { slots: p.slots@, frames: Map::new(|f: int| true, |f: int| p.frame(f)) }
}

// ---------------------------------------------------------------------------------------------
// User memory
// ---------------------------------------------------------------------------------------------

impl Kernel {
    /// Sees to it that the running task may read or write the `len` bytes from `start` on, page by
    /// page.
    pub(crate) fn ensure_user_range(&mut self, start: u64, len: u64, writing: bool) -> (r: Result<(), &'static str>)
        requires
            old(self).wf(),
            start + len <= KERN_BASE,
        ensures
            final(self).wf(),
            (r is Ok, final(self)@) == old(self)@.ensured(start, len, writing),
            r is Err ==> r == Err::<(), &'static str>("efault"),
    {
        if len == 0 {
            return Ok(());
        }
        let access: u8 = if writing {
            2
        } else {
            0
        };
        let first: u64 = start - start % PAGE_SZ;
        let end: u64 = start + len - 1;
        let last: u64 = end - end % PAGE_SZ;
        let n: u64 = (last - first) / PAGE_SZ + 1;
        let ghost k0 = self@;
        let mut i: u64 = 0;
        while i < n
            invariant
                self.wf(),
                i <= n,
                first + (n - 1) * PAGE_SZ <= last,
                access / 2 % 2 == 1 <==> writing,
                old(self)@.ensured(start, len, writing) == k0.faulted_pages(first as int, n as nat, writing),
                k0.faulted_pages(first as int, n as nat, writing) == self@.faulted_pages(
                    first + i * PAGE_SZ,
                    (n - i) as nat,
                    writing,
                ),
            decreases n - i,
        {
            let addr: u64 = first + i * PAGE_SZ;
            let ok = self.handle_pgfault(addr, access);
            if !ok {
                return Err("efault");
            }
            i += 1;
        }
        Ok(())
    }

    /// Copies `data` to the addresses of the running task from `start` on. Pages without a frame
    /// are passed over.
    pub fn copy_to_user(&mut self, start: u64, data: &[u8]) -> (r: Result<(), &'static str>)
        requires
            old(self).wf(),
            start + data@.len() <= u64::MAX + 1,
        ensures
            final(self).wf(),
            old(self)@.cur() is None ==> r == Err::<(), &'static str>("esrch") && final(self)@ == old(self)@,
            old(self)@.cur() is Some ==> r == Ok::<(), &'static str>(()) && final(self)@ == old(self)@.with_poured(
                start,
                data@,
            ),
    {
        let t: usize = match self.cur_task(0) {
            Some(t) => t,
            None => {
                return Err("esrch");
            },
        };
        let ghost k0 = self@;
        let ghost pages = k0.tasks.arena[t as int].space.pages;
        assert(self.tasks.arena@[t as int]@ == k0.tasks.arena[t as int]);
        let len = data.len();
        let mut off: usize = 0;
        while off < len
            invariant
                self.wf(),
                t < k0.tasks.arena.len(),
                k0.cpus[0] == Some(t),
                pages == k0.tasks.arena[t as int].space.pages,
                len == data@.len(),
                off <= len,
                start + len <= u64::MAX + 1,
                self@ == (KernelState { pool: self@.pool, ..k0 }),
                self@.pool.slots == k0.pool.slots,
                poured(k0.pool.frames, pages, start as int, data@, 0) == poured(
                    self@.pool.frames,
                    pages,
                    start as int,
                    data@,
                    off as int,
                ),
            decreases len - off,
        {
            let addr: u64 = start + off as u64;
            let at: u64 = addr % PAGE_SZ;
            let page: u64 = addr - at;
            let room: usize = (PAGE_SZ - at) as usize;
            let n: usize = if len - off < room {
                len - off
            } else {
                room
            };
            let ghost before = self@;
            assert(self.tasks.arena@[t as int]@ == k0.tasks.arena[t as int]);
            let frame: Option<usize> = match self.tasks.arena[t].addr_space.cow_pages.get(page) {
                Some(f) => Some(f.frame_id),
                None => None,
            };
            match frame {
                Some(id) => {
                    let chunk = vstd::slice::slice_subrange(data, off, off + n);
                    let ghost pool0 = self.pool;
                    self.pool.write_frame(id, at as usize, chunk);
                    proof {
                        let f2 = before.pool.frames.insert(
                            id as int,
                            patched(before.pool.frames[id as int], at as int, chunk@),
                        );
                        assert forall|f: int| pool_state(self.pool).frames[f] == f2[f] by {
                            assert(before.pool.frames[f] == pool0.frame(f));
                            if f == id {
                                assert(self.pool.frame(f) =~= patched(pool0.frame(f), at as int, chunk@));
                            }
                        }
                        assert(pool_state(self.pool).frames =~= f2);
                        assert(self@ =~= (KernelState { pool: self@.pool, ..k0 }));
                    }
                },
                None => {},
            }
            off += n;
        }
        assert(self@ =~= k0.with_poured(start, data@));
        Ok(())
    }

    /// Copies what is at the addresses of the running task from `start` on to `buf`. What would
    /// come from a page without a frame stays as it is.
    pub fn copy_from_user(&self, start: u64, buf: &mut [u8]) -> (r: Result<(), &'static str>)
        requires
            self.wf(),
            start + old(buf)@.len() <= u64::MAX + 1,
        ensures
            self@.cur() is None ==> r == Err::<(), &'static str>("esrch") && final(buf)@ == old(buf)@,
            self@.cur() is Some ==> r == Ok::<(), &'static str>(()) && final(buf)@ == scooped(
                self@.pool.frames,
                self@.cur_state().space.pages,
                start as int,
                old(buf)@,
            ),
    {
        let t: usize = match self.cur_task(0) {
            Some(t) => t,
            None => {
                return Err("esrch");
            },
        };
        let ghost pages = self@.tasks.arena[t as int].space.pages;
        let ghost frames = self@.pool.frames;
        assert(self.tasks.arena@[t as int]@ == self@.tasks.arena[t as int]);
        let space = &self.tasks.arena[t].addr_space;
        assert(space.cow_pages@ == pages);
        let len = buf.len();
        let mut off: usize = 0;
        while off < len
            invariant
                self.wf(),
                space.wf(),
                space.cow_pages@ == pages,
                frames == self@.pool.frames,
                len == buf@.len(),
                len == old(buf)@.len(),
                off <= len,
                start + len <= u64::MAX + 1,
                forall|i: int| 0 <= i < off ==> buf@[i] == user_byte(frames, pages, start + i, old(buf)@[i]),
                forall|i: int| off <= i < len ==> buf@[i] == old(buf)@[i],
            decreases len - off,
        {
            let addr: u64 = start + off as u64;
            let at: u64 = addr % PAGE_SZ;
            let page: u64 = addr - at;
            let room: usize = (PAGE_SZ - at) as usize;
            let n: usize = if len - off < room {
                len - off
            } else {
                room
            };
            proof {
                assert forall|i: int| 0 <= i < n implies #[trigger] crate::address_space::page_of((addr + i) as u64) == page && (addr
                    + i) % PAGE_SZ as int == at + i by {
                    lemma_same_page(addr as int, i);
                }
            }
            match space.cow_pages.get(page) {
                Some(f) => {
                    let d = self.pool.read_frame(f.frame_id);
                    assert(d@ == frames[f.frame_id as int]);
                    let mut i: usize = 0;
                    while i < n
                        invariant
                            i <= n,
                            n <= PAGE_SZ - at,
                            off + n <= len,
                            len == buf@.len(),
                            len == old(buf)@.len(),
                            d@.len() == PAGE_SZ,
                            d@ == frames[pages[page].frame_id as int],
                            pages.dom().contains(page),
                            addr == start + off,
                            at < PAGE_SZ,
                            forall|i: int|
                                0 <= i < n ==> #[trigger] crate::address_space::page_of((addr + i) as u64) == page && (addr + i)
                                    % PAGE_SZ as int == at + i,
                            forall|j: int| 0 <= j < off + i ==> buf@[j] == user_byte(frames, pages, start + j, old(buf)@[j]),
                            forall|j: int| off + i <= j < len ==> buf@[j] == old(buf)@[j],
                        decreases n - i,
                    {
                        buf[off + i] = d[at as usize + i];
                        proof {
                            let j = off + i;
                            assert(crate::address_space::page_of((addr + i) as u64) == page);
                            assert(start + j == addr + i);
                        }
                        i += 1;
                    }
                },
                None => {
                    proof {
                        assert forall|j: int| off <= j < off + n implies buf@[j] == user_byte(
                            frames,
                            pages,
                            start + j,
                            old(buf)@[j],
                        ) by {
                            let i = j - off;
                            assert(crate::address_space::page_of((addr + i) as u64) == page);
                            assert(start + j == addr + i);
                        }
                    }
                },
            }
            off += n;
        }
        assert(buf@ =~= scooped(frames, pages, start as int, old(buf)@));
        Ok(())
    }
}

/// Addresses up to the end of a page lie in it.
proof fn lemma_same_page(addr: int, i: int)
    requires
        0 <= addr,
        0 <= i < PAGE_SZ - addr % PAGE_SZ as int,
        addr + i <= u64::MAX,
    ensures
        (addr + i) % PAGE_SZ as int == addr % PAGE_SZ as int + i,
        crate::address_space::page_of((addr + i) as u64) == addr - addr % PAGE_SZ as int,
{
}

impl KernelState {
    /// After `data` was copied to the running task.
    pub open spec fn with_poured(self, start: u64, data: Seq<u8>) -> KernelState {
        KernelState {
            pool: PoolState {
                frames: poured(self.pool.frames, self.cur_state().space.pages, start as int, data, 0),
                ..self.pool
            },
            ..self
        }
    }

    /// The `n` bytes of the running task from `start` on; zeros where a page has no frame.
    pub open spec fn user_bytes(self, start: u64, n: nat) -> Seq<u8> {
        scooped(self.pool.frames, self.cur_state().space.pages, start as int, Seq::new(n, |i: int| 0u8))
    }
}

// ---------------------------------------------------------------------------------------------
// Clock, terminal and memory
// ---------------------------------------------------------------------------------------------

/// A character as the terminal hands it on: a carriage return is a line feed.
pub open spec fn tty_char(c: u8) -> u8 {
    if c == 13 {
        10
    } else {
        c
    }
}

/// The addresses of the first `count` free frames, or of all where there are fewer.
pub open spec fn page_addrs(slots: Seq<bool>, count: nat) -> Seq<u64> {
    let all = crate::memory::free_list(slots);
    all.take(if count < all.len() { count as int } else { all.len() as int }).map_values(
        |i: usize| (i * PAGE_SZ + MEM_OFF) as u64,
    )
}

/// Which frames are free after the first `n` of these addresses were given back.
pub open spec fn given_back(slots: Seq<bool>, pages: Seq<u64>, n: int) -> Seq<bool>
    decreases n,
{
    if n <= 0 {
        slots
    } else {
        let s = given_back(slots, pages, n - 1);
        let i = (pages[n - 1] - MEM_OFF) / PAGE_SZ as int;
        if i < s.len() {
            s.update(i, true)
        } else {
            s
        }
    }
}

/// How many tasks CPU `c` has: the one that it runs and its children.
pub open spec fn cpu_tasks(k: KernelState) -> Seq<u64> {
    k.cpus.map_values(
        |c: Option<TaskRef>|
            match c {
                Some(t) => (k.tasks.arena[t as int].subtasks.len() + 1) as u64,
                None => 0,
            },
    )
}

/// The groups of the running tasks, which stand for their priorities.
pub open spec fn cpu_groups(k: KernelState) -> Seq<i32> {
    k.cpus.map_values(
        |c: Option<TaskRef>|
            match c {
                Some(t) => k.tasks.arena[t as int].pgid,
                None => 0,
            },
    )
}

/// The CPUs whose tasks have ended.
pub open spec fn cpu_ended(k: KernelState) -> Seq<bool> {
    k.cpus.map_values(
        |c: Option<TaskRef>|
            match c {
                Some(t) => k.tasks.arena[t as int].status is Some,
                None => false,
            },
    )
}

impl KernelState {
    /// The tasks of each CPU can be counted, and their scores reckoned, within a word.
    pub open spec fn countable(self) -> bool {
        &&& forall|c: int|
            0 <= c < self.cpus.len() ==> ((#[trigger] self.cpus[c]) matches Some(t) ==> self.tasks.arena[t as int].subtasks.len()
                < u64::MAX)
        &&& forall|c: int|
            0 <= c < self.cpus.len() ==> #[trigger] crate::scheduler::score_fits(
                cpu_tasks(self),
                cpu_groups(self),
                cpu_ended(self),
                c,
            )
    }
}

impl Kernel {
    /// Writes the modified blocks to the disk, as CPU `id` does at every tick.
    pub fn tick(&mut self, id: usize)
        requires
            old(self).wf(),
        ensures
            final(self).wf(),
            final(self)@ == (KernelState {
                cache: old(self).cache.slots_clean(),
                chains: crate::cache::written_back(old(self)@.chains),
                disk: final(self)@.disk,
                ..old(self)@
            }),
            final(self)@.disk.state() == old(self)@.disk.state().wrote_all(
                crate::cache::dirty_chains(old(self)@.chains),
            ),
            final(self)@.disk.journal == old(self)@.disk.journal,
            final(self)@.disk.label == old(self)@.disk.label,
    {
        let ghost before = self.cache;
        self.cache.sync_all(&mut self.disk);
        proof {
            assert(crate::fs::whole(self.cache.slots())) by {
                assert forall|b: u64| #[trigger] self.cache.slots().dom().contains(b) implies self.cache.slots()[b].0.len()
                    == crate::io::DISK_BLOCK by {
                    assert(before.slots().dom().contains(b));
                }
            }
        }
    }

    /// Counts a tick of CPU `cpu`.
    pub fn schedule_tick(&mut self, cpu: u64)
        requires
            old(self).wf(),
        ensures
            final(self).wf(),
            final(self)@ == (KernelState { clock: old(self)@.clock.ticked(cpu), ..old(self)@ }),
    {
        dtk(&mut self.clock, cpu);
    }

    /// Takes a character from the terminal, unless too many have not been read.
    pub fn tty_push(&mut self, c: u8)
        requires
            old(self).wf(),
        ensures
            final(self).wf(),
            final(self)@ == old(self)@.typed(c),
            final(self)@ == (KernelState {
                tty: if old(self)@.tty.len() < TTY_CAP {
                    old(self)@.tty.push(tty_char(c))
                } else {
                    old(self)@.tty
                },
                ..old(self)@
            }),
    {
        let byte: u8 = if c == 13 {
            10
        } else {
            c
        };
        if self.tty_buf.len() < TTY_CAP {
            self.tty_buf.push(byte);
        }
    }

    /// The next character from the terminal.
    pub fn tty_pop(&mut self) -> (r: Option<u8>)
        requires
            old(self).wf(),
        ensures
            final(self).wf(),
            (r, final(self)@) == old(self)@.next_typed(),
            r == (if old(self)@.tty.len() > 0 { Some(old(self)@.tty[0]) } else { None }),
            final(self)@ == (KernelState {
                tty: if old(self)@.tty.len() > 0 {
                    old(self)@.tty.skip(1)
                } else {
                    old(self)@.tty
                },
                ..old(self)@
            }),
    {
        if self.tty_buf.len() == 0 {
            return None;
        }
        let c: u8 = self.tty_buf.remove(0);
        assert(self@.tty =~= old(self)@.tty.skip(1));
        Some(c)
    }

    /// Takes up to `count` free frames; gives their addresses.
    pub fn alloc_pages(&mut self, count: usize) -> (v: Vec<u64>)
        requires
            old(self).wf(),
        ensures
            final(self).wf(),
            v@ == page_addrs(old(self)@.pool.slots, count as nat),
            final(self)@ == (KernelState {
                pool: PoolState {
                    slots: crate::memory::first_taken(old(self)@.pool.slots, count as nat),
                    ..old(self)@.pool
                },
                ..old(self)@
            }),
    {
        let ghost slots = self.pool.slots@;
        let ids = self.pool.batch_alloc(count);
        proof {
            assert(pool_state(self.pool).frames =~= old(self)@.pool.frames);
            assert(self@ =~= (KernelState {
                pool: PoolState { slots: crate::memory::first_taken(slots, count as nat), ..old(self)@.pool },
                ..old(self)@
            }));
            lemma_free_list_bounds(slots);
        }
        let mut v: Vec<u64> = Vec::new();
        let mut i: usize = 0;
        while i < ids.len()
            invariant
                i <= ids@.len(),
                v@.len() == i,
                slots.len() * PAGE_SZ + MEM_OFF <= u64::MAX,
                forall|j: int| 0 <= j < ids@.len() ==> (#[trigger] ids@[j]) < slots.len(),
                forall|j: int| 0 <= j < i ==> (#[trigger] v@[j]) == ids@[j] * PAGE_SZ + MEM_OFF,
            decreases ids@.len() - i,
        {
            let id: u64 = ids[i] as u64;
            v.push(id * PAGE_SZ + MEM_OFF);
            i += 1;
        }
        assert(v@ =~= page_addrs(slots, count as nat));
        v
    }

    /// Gives frames back by their addresses; addresses beyond the memory are ignored.
    pub fn free_pages(&mut self, pages: &[u64])
        requires
            old(self).wf(),
            forall|i: int| 0 <= i < pages@.len() ==> (#[trigger] pages@[i]) >= MEM_OFF,
        ensures
            final(self).wf(),
            final(self)@ == (KernelState {
                pool: PoolState {
                    slots: given_back(old(self)@.pool.slots, pages@, pages@.len() as int),
                    ..old(self)@.pool
                },
                ..old(self)@
            }),
    {
        let ghost k0 = self@;
        let n = pages.len();
        let mut i: usize = 0;
        while i < n
            invariant
                self.wf(),
                n == pages@.len(),
                i <= n,
                forall|i: int| 0 <= i < pages@.len() ==> (#[trigger] pages@[i]) >= MEM_OFF,
                self@ == (KernelState {
                    pool: PoolState { slots: given_back(k0.pool.slots, pages@, i as int), ..k0.pool },
                    ..k0
                }),
            decreases n - i,
        {
            let idx: u64 = (pages[i] - MEM_OFF) / PAGE_SZ;
            let ghost before = self@;
            if idx < self.pool.slots.len() as u64 {
                self.pool.put(idx as usize);
            }
            proof {
                assert(pool_state(self.pool).frames =~= before.pool.frames);
                assert(pool_state(self.pool).slots =~= given_back(k0.pool.slots, pages@, i + 1));
                assert(self@ =~= (KernelState {
                    pool: PoolState { slots: given_back(k0.pool.slots, pages@, i + 1), ..k0.pool },
                    ..k0
                }));
            }
            i += 1;
        }
    }

    /// How many of a hundred frames are in use; 100 where there are none.
    pub fn memory_pressure(&self) -> (p: usize)
        requires
            self.wf(),
            self@.pool.slots.len() * 100 <= usize::MAX,
        ensures
            ({
                let n = self@.pool.slots.len();
                p == (if n == 0 {
                    100
                } else {
                    (n - crate::utils::free_count(self@.pool.slots)) * 100 / n as int
                })
            }),
    {
        let total = self.pool.slots.len();
        if total == 0 {
            return 100;
        }
        let free: usize = self.pool.free_count();
        (total - free) * 100 / total
    }

    /// How many blocks are in memory, and how many of them are modified.
    pub fn cache_stats(&self) -> (r: (usize, usize))
        requires
            self.wf(),
            crate::cache::entries_in(self@.chains) <= usize::MAX,
        ensures
            r.0 == crate::cache::entries_in(self@.chains),
            r.1 == crate::cache::dirty_chains(self@.chains).len(),
            r.0 == self@.cache.dom().len(),
            r.1 == crate::cache::modified_keys(self@.cache).len(),
    {
        (self.cache.total_entries(), self.cache.dirty_count())
    }

    /// The CPU that is best for a new task.
    pub fn balance_load(&self) -> (cpu: usize)
        requires
            self.wf(),
            self@.countable(),
        ensures
            crate::scheduler::best_cpu(cpu_tasks(self@), cpu_groups(self@), cpu_ended(self@), cpu as int),
    {
        let mut counts: Vec<u64> = Vec::new();
        let mut prios: Vec<i32> = Vec::new();
        let mut blocked: Vec<bool> = Vec::new();
        let ghost k = self@;
        let mut i: usize = 0;
        while i < MAX_CPU
            invariant
                self.wf(),
                k == self@,
                i <= MAX_CPU,
                counts@ == cpu_tasks(k).take(i as int),
                prios@ == cpu_groups(k).take(i as int),
                blocked@ == cpu_ended(k).take(i as int),
                k.countable(),
            decreases MAX_CPU - i,
        {
            proof {
                assert(cpu_tasks(k).take(i + 1) =~= cpu_tasks(k).take(i as int).push(cpu_tasks(k)[i as int]));
                assert(cpu_groups(k).take(i + 1) =~= cpu_groups(k).take(i as int).push(cpu_groups(k)[i as int]));
                assert(cpu_ended(k).take(i + 1) =~= cpu_ended(k).take(i as int).push(cpu_ended(k)[i as int]));
            }
            match self.cur_task(i) {
                Some(t) => {
                    assert(self.tasks.arena@[t as int]@ == k.tasks.arena[t as int]);
                    let task = &self.tasks.arena[t];
                    counts.push(task.n_children() as u64 + 1);
                    prios.push(task.pgid);
                    blocked.push(task.done());
                },
                None => {
                    counts.push(0);
                    prios.push(0);
                    blocked.push(false);
                },
            }
            i += 1;
        }
        proof {
            assert(counts@ =~= cpu_tasks(k));
            assert(prios@ =~= cpu_groups(k));
            assert(blocked@ =~= cpu_ended(k));
        }
        compute_load_balance(counts.as_slice(), prios.as_slice(), blocked.as_slice())
    }
}

proof fn lemma_free_list_bounds(slots: Seq<bool>)
    requires
        slots.len() <= usize::MAX,
    ensures
        forall|j: int| 0 <= j < crate::memory::free_list(slots).len() ==> (#[trigger] crate::memory::free_list(slots)[j])
            < slots.len(),
    decreases slots.len(),
{
    if slots.len() > 0 {
        let f = crate::memory::free_list(slots.drop_last());
        lemma_free_list_bounds(slots.drop_last());
        assert forall|j: int| 0 <= j < crate::memory::free_list(slots).len() implies (#[trigger] crate::memory::free_list(slots)[j])
            < slots.len() by {
            if j < f.len() {
                assert(f[j] < slots.drop_last().len());
            }
        }
    }
}

// ---------------------------------------------------------------------------------------------
// Processes
// ---------------------------------------------------------------------------------------------

/// Nothing has gone from the heap.
pub open spec fn heap_within(a: HeapState, b: HeapState) -> bool {
    a.datas.len() <= b.datas.len() && a.descs.len() <= b.descs.len() && a.pipes.len() <= b.pipes.len() && a.sets.len()
        <= b.sets.len()
}

/// The kernel stays sound when one task becomes `b`.
pub proof fn lemma_task_changed(k0: KernelState, k1: KernelState, t: TaskRef, b: TaskState)
    requires
        k0.sound(),
        k0.tasks.linked(),
        t < k0.tasks.arena.len(),
        k1.tasks == k0.tasks.with(t, b),
        k1.cpus == k0.cpus,
        k1.pool.slots.len() == k0.pool.slots.len(),
        heap_within(k0.heap, k1.heap),
        b.parent == k0.tasks.arena[t as int].parent,
        b.subtasks == k0.tasks.arena[t as int].subtasks,
        b.valid(k1.heap),
        frames_in(b.space, k1.pool.slots.len()),
    ensures
        k1.sound(),
        k1.tasks.linked(),
{
    crate::task::lemma_linked(k0.tasks, k1.tasks);
    assert forall|i: int| 0 <= i < k1.tasks.arena.len() implies (#[trigger] k1.tasks.arena[i]).valid(k1.heap) && frames_in(
        k1.tasks.arena[i].space,
        k1.pool.slots.len(),
    ) by {
        assert(k0.tasks.arena[i].valid(k0.heap));
        assert(frames_in(k0.tasks.arena[i].space, k0.pool.slots.len()));
    }
    assert forall|c: int| 0 <= c < k1.cpus.len() implies ((#[trigger] k1.cpus[c]) matches Some(x) ==> x < k1.tasks.arena.len()) by {
        assert(k0.cpus[c] matches Some(x) ==> x < k0.tasks.arena.len());
    }
}

/// The kernel stays sound when the tasks change only in who belongs to whom, in what they were
/// told and in how they ended.
pub proof fn lemma_tasks_changed(k0: KernelState, k1: KernelState)
    requires
        k0.sound(),
        k1 == (KernelState { tasks: k1.tasks, ..k0 }),
        k1.tasks.arena.len() == k0.tasks.arena.len(),
        forall|i: int|
            0 <= i < k0.tasks.arena.len() ==> (#[trigger] k1.tasks.arena[i]).files == k0.tasks.arena[i].files
                && k1.tasks.arena[i].space == k0.tasks.arena[i].space,
    ensures
        k1.sound(),
{
    assert forall|i: int| 0 <= i < k1.tasks.arena.len() implies (#[trigger] k1.tasks.arena[i]).valid(k1.heap) && frames_in(
        k1.tasks.arena[i].space,
        k1.pool.slots.len(),
    ) by {
        assert(k0.tasks.arena[i].valid(k0.heap));
        assert(frames_in(k0.tasks.arena[i].space, k0.pool.slots.len()));
    }
}

impl TableState {
    /// After the tasks under the first `n` of these numbers were reaped.
    pub open spec fn reaped_all(self, ids: Seq<u64>, n: int) -> TableState
        decreases n,
    {
        if n <= 0 {
            self
        } else {
            self.reaped_all(ids, n - 1).reaped(ids[n - 1])
        }
    }

    /// Child `i` of task `p` has ended and is one that `target` asks for: -1 asks for any child, 0
    /// for those of the same group, a positive number for the one with that number, and another
    /// negative number for those of the group of the opposite number.
    pub open spec fn awaited(self, p: TaskRef, target: i64, i: int) -> bool {
        let a = self.arena[p as int];
        let c = self.arena[a.subtasks[i] as int];
        c.status is Some && (if target == -1 {
            true
        } else if target == 0 {
            c.pgid == a.pgid
        } else if target > 0 {
            c.id == target
        } else {
            c.pgid == (-target) as i32
        })
    }

    /// Child `i` is the first of these.
    pub open spec fn first_awaited(self, p: TaskRef, target: i64, i: int) -> bool {
        &&& 0 <= i < self.arena[p as int].subtasks.len()
        &&& self.awaited(p, target, i)
        &&& forall|j: int| 0 <= j < i ==> !self.awaited(p, target, j)
    }
}

/// A descriptor that does not outlive a new program.
pub open spec fn ends_on_exec(f: FRef) -> bool {
    f matches FRef::File(h) && h.cloexec
}

/// The descriptors that a new program gets.
pub open spec fn kept_on_exec(m: Map<u64, FRef>) -> Map<u64, FRef> {
    Map::new(|k: u64| m.dom().contains(k) && !ends_on_exec(m[k]), |k: u64| m[k])
}

/// Where a program starts.
pub const PROG_ENTRY: u64 = 0x0040_0000;

impl KernelState {
    /// After a character came from the terminal, for which there may be room or not.
    pub open spec fn typed(self, c: u8) -> KernelState {
        KernelState {
            tty: if self.tty.len() < TTY_CAP {
                self.tty.push(tty_char(c))
            } else {
                self.tty
            },
            ..self
        }
    }

    /// The next character from the terminal, and the kernel without it.
    pub open spec fn next_typed(self) -> (Option<u8>, KernelState) {
        if self.tty.len() > 0 {
            (Some(self.tty[0]), KernelState { tty: self.tty.skip(1), ..self })
        } else {
            (None, self)
        }
    }

    /// After task `t` was forked: the child has the parent's memory, of which each page is copied
    /// when one of them writes it.
    pub open spec fn forked(self, t: TaskRef) -> KernelState {
        let a = self.tasks.arena[t as int];
        let s = self.tasks.forked(t);
        let n = self.tasks.arena.len() as usize;
        let parent = s.arena[t as int];
        let child = s.arena[n as int];
        KernelState {
            tasks: s.with(t, TaskState { space: a.space.forked(), ..parent }).with(
                n,
                TaskState { space: a.space.child(self.tasks.seq as u16), vm_token: a.vm_token, ..child },
            ),
            sems: crate::task::sems_inherited(self.sems, a),
            shms: crate::task::shms_inherited(self.shms, a),
            ..self
        }
    }

    /// After task `t` started another program.
    pub open spec fn execed(self, t: TaskRef, path: Seq<char>, sp: u64) -> KernelState {
        let a = self.tasks.arena[t as int];
        let regs = crate::task::zero_regs().with(crate::consts::N_REGS - 1, sp);
        KernelState {
            tasks: self.tasks.with(
                t,
                TaskState {
                    exec_path: path,
                    files: kept_on_exec(a.files),
                    thd_ctx: Some(ThdState { regs: Registers { ip: PROG_ENTRY, ..regs }, ..ThdState::fresh() }),
                    ..a
                },
            ),
            ..self
        }
    }

    /// Waiting on behalf of the process under `parent_id` gives `r` and leaves `after`: the first
    /// child that has ended and that `target` asks for is reaped, and its number and exit code are
    /// given. Where there is none, with bit 0 of `options` the answer is a pair of zeros.
    pub open spec fn waited(
        self,
        parent_id: u64,
        target: i64,
        options: u64,
        r: Result<(u64, u64), &'static str>,
        after: KernelState,
    ) -> bool {
        let s = self.tasks;
        let p = s.map[parent_id];
        let a = s.arena[p as int];
        let none = (if options % 2 == 1 && a.subtasks.len() > 0 {
            Ok::<(u64, u64), &'static str>((0, 0))
        } else {
            Err("echild")
        });
        if !s.map.dom().contains(parent_id) {
            r == Err::<(u64, u64), &'static str>("esrch") && after == self
        } else if forall|i: int| 0 <= i < a.subtasks.len() ==> !s.awaited(p, target, i) {
            r == none && after == self
        } else {
            exists|i: int| #[trigger]
                s.first_awaited(p, target, i) && {
                    let c = s.arena[a.subtasks[i] as int];
                    r == Ok::<(u64, u64), &'static str>((c.id, c.exit_code)) && after == (KernelState {
                        tasks: s.reaped(c.id),
                        ..self
                    })
                }
        }
    }

    /// After task `t` got both ends of a new pipe as descriptors `rd` and `wr`.
    pub open spec fn piped(self, t: TaskRef, rd: u64, wr: u64) -> KernelState {
        let a = self.tasks.arena[t as int];
        let data = self.heap.pipes.len() as usize;
        KernelState {
            heap: HeapState { pipes: self.heap.pipes.push(PipeState::fresh()), ..self.heap },
            tasks: self.tasks.with(
                t,
                TaskState {
                    files: a.files.insert(rd, FRef::Pipe(PipeNode { data, dir: PipeDir::Rd })).insert(
                        wr,
                        FRef::Pipe(PipeNode { data, dir: PipeDir::Wr }),
                    ),
                    ..a
                },
            ),
            ..self
        }
    }
}

impl Kernel {
    /// Makes the first process; its kernel stack is the memory from `stack_base` on.
    pub fn proc_init(&mut self, stack_base: u64)
        requires
            old(self).wf(),
        ensures
            final(self).wf(),
            ({
                let s = old(self)@.tasks.spawned("init"@);
                let r = old(self)@.tasks.arena.len() as usize;
                final(self)@ == (KernelState {
                    tasks: TableState {
                        root: Some(r),
                        ..s.with(
                            r,
                            TaskState {
                                threads: seq![old(self)@.tasks.seq],
                                kstk: Some(stack_base),
                                ..s.arena[r as int]
                            },
                        )
                    },
                    ..old(self)@
                })
            }),
    {
        let ghost k0 = self@;
        let r = self.tasks.spawn_root();
        let ghost s = k0.tasks.spawned("init"@);
        assert(self.tasks.arena@[r as int]@ == self.tasks@.arena[r as int]);
        let id: u64 = self.tasks.arena[r].id();
        self.tasks.arena[r].threads.push(id);
        self.tasks.arena[r].kstk = Some(KStk::new(stack_base));
        proof {
            let b = TaskState { threads: seq![k0.tasks.seq], kstk: Some(stack_base), ..s.arena[r as int] };
            let s2 = TableState { root: Some(r), ..s };
            assert(self.tasks.arena@[r as int]@ =~= b);
            assert(self.tasks@.arena =~= s.with(r, b).arena);
            assert(self.tasks@ =~= (TableState { root: Some(r), ..s.with(r, b) }));
            crate::task::lemma_linked(s2, self.tasks@);
            let k1 = self@;
            assert forall|i: int| 0 <= i < k1.tasks.arena.len() implies (#[trigger] k1.tasks.arena[i]).valid(k1.heap)
                && frames_in(k1.tasks.arena[i].space, k1.pool.slots.len()) by {
                if i < r {
                    assert(k1.tasks.arena[i] == k0.tasks.arena[i]);
                }
            }
        }
    }

    /// The semaphore array under `key`, made where there is none.
    pub fn get_sem(&mut self, key: u32, nsems: usize, flags: u64) -> (r: Result<usize, &'static str>)
        requires
            old(self).wf(),
            old(self)@.sems.live(key as u64) ==> old(self)@.sems.refs[old(self)@.sems.store[key as u64] as int] < u64::MAX,
            key == 0 ==> exists|q: u64| 1 <= q <= u32::MAX && !old(self)@.sems.store.dom().contains(q),
        ensures
            final(self).wf(),
            old(self)@.sems.found_or_made(key, nsems, flags, r, final(self)@.sems),
            final(self)@ == (KernelState { sems: final(self)@.sems, ..old(self)@ }),
            ({
                let h = old(self)@.sems;
                let n = h.arrays.len() as usize;
                if key != 0 && h.live(key as u64) {
                    if flags & 0x200 != 0 && flags & 0x400 != 0 {
                        r == Err::<usize, &'static str>("eexist") && final(self)@.sems == h
                    } else {
                        let i = h.store[key as u64];
                        r == Ok::<usize, &'static str>(i) && final(self)@.sems == (SemHeapState {
                            refs: h.refs.update(i as int, (h.refs[i as int] + 1) as u64),
                            ..h
                        })
                    }
                } else {
                    &&& r == Ok::<usize, &'static str>(n)
                    &&& key != 0 ==> final(self)@.sems == h.with_array(key as u64, nsems, flags)
                    &&& key == 0 ==> exists|k: u64| #[trigger]
                        crate::ipc::lowest_key(h.store, 1, k) && final(self)@.sems == h.with_array(k, nsems, flags)
                }
            }),
    {
        SemArr::get_or_create(key, nsems, flags, &mut self.sems)
    }

    /// The shared memory under `key`, made where there is none.
    pub fn get_shm(&mut self, key: u64, npages: usize) -> (r: usize)
        requires
            old(self).wf(),
            old(self)@.shms.live(key) ==> old(self)@.shms.refs[old(self)@.shms.store[key] as int] < u64::MAX,
        ensures
            final(self).wf(),
            (r as int, final(self)@.shms) == old(self)@.shms.found_or_made(key, npages),
            ({
                let h = old(self)@.shms;
                if h.live(key) {
                    r == h.store[key] && final(self)@ == (KernelState {
                        shms: ShmHeapState { refs: h.refs.update(r as int, (h.refs[r as int] + 1) as u64), ..h },
                        ..old(self)@
                    })
                } else {
                    r == h.pages.len() && final(self)@ == (KernelState {
                        shms: ShmHeapState {
                            pages: h.pages.push(Seq::new(npages as nat, |i: int| 0u64)),
                            refs: h.refs.push(1),
                            store: h.store.insert(key, r),
                        },
                        ..old(self)@
                    })
                }
            }),
    {
        shm_get_or_create(key, npages, &mut self.shms)
    }

    /// Reaps all tasks that have ended; gives how many there were.
    pub fn reclaim_zombies(&mut self) -> (n: usize)
        requires
            old(self).wf(),
        ensures
            final(self).wf(),
            ({
                let s = old(self)@.tasks;
                let ids = crate::seqs::sorted_keys(s.map).filter(crate::task::ended(s, true));
                n == ids.len() && final(self)@ == (KernelState {
                    tasks: s.reaped_all(ids, ids.len() as int),
                    ..old(self)@
                })
            }),
    {
        let ghost k0 = self@;
        let ids = self.tasks.zombie_tasks();
        let n = ids.len();
        let mut i: usize = 0;
        while i < n
            invariant
                self.wf(),
                n == ids@.len(),
                i <= n,
                self@ == (KernelState { tasks: k0.tasks.reaped_all(ids@, i as int), ..k0 }),
            decreases n - i,
        {
            let ghost before = self@;
            self.tasks.reap(ids[i]);
            proof {
                crate::task::lemma_reaped_keeps(before.tasks, ids@[i as int]);
                assert(self@ =~= (KernelState { tasks: before.tasks.reaped(ids@[i as int]), ..before }));
                lemma_tasks_changed(before, self@);
            }
            i += 1;
        }
        n
    }

    /// Where `path` leads through the mounts, with its runs of slashes drawn together.
    pub fn lookup_path(&self, path: &str) -> (r: Result<String, &'static str>)
        requires
            self.wf(),
        ensures
            path@.len() == 0 ==> r == Err::<String, &'static str>("enoent"),
            path@.len() > 0 ==> r is Ok && r->Ok_0@ == crate::mount::resolved(self@.mnt, path@),
    {
        if path.unicode_len() == 0 {
            return Err("enoent");
        }
        self.mnt.resolve(path)
    }

    /// Forks the process under `parent_id`; gives the child's number.
    pub fn do_fork(&mut self, parent_id: u64) -> (r: Result<u64, &'static str>)
        requires
            old(self).wf(),
            old(self)@.tasks.map.dom().contains(parent_id) ==> crate::task::inheritable(
                old(self)@.tasks.arena[old(self)@.tasks.map[parent_id] as int],
                old(self)@.sems,
                old(self)@.shms,
            ),
        ensures
            final(self).wf(),
            !old(self)@.tasks.map.dom().contains(parent_id) ==> r == Err::<u64, &'static str>("esrch") && final(self)@
                == old(self)@,
            old(self)@.tasks.map.dom().contains(parent_id) ==> r == Ok::<u64, &'static str>(old(self)@.tasks.seq)
                && final(self)@ == old(self)@.forked(old(self)@.tasks.map[parent_id]),
    {
        let t: usize = match self.tasks.find(parent_id) {
            Some(t) => t,
            None => {
                return Err("esrch");
            },
        };
        let ghost k0 = self@;
        let ghost a = k0.tasks.arena[t as int];
        let n = self.tasks.fork_task(t, &mut self.sems, &mut self.shms);
        let ghost s1 = self.tasks@;
        assert(self.tasks.arena@[t as int]@ == s1.arena[t as int]);
        assert(self.tasks.arena@[n as int]@ == s1.arena[n as int]);
        let child_id: u64 = self.tasks.arena[n].id();
        let space = AddrSpace::fork_from(&mut self.tasks.arena[t].addr_space, child_id as u16);
        let token: u64 = self.tasks.arena[t].vm_token;
        let ghost mid = self.tasks;
        assert(mid.arena@[n as int]@ == s1.arena[n as int]);
        self.tasks.arena[n].addr_space = space;
        self.tasks.arena[n].vm_token = token;
        proof {
            let s2 = k0.forked(t).tasks;
            assert(mid.arena@[t as int]@ =~= s2.arena[t as int]);
            assert(self.tasks.arena@[n as int]@ =~= s2.arena[n as int]);
            assert forall|i: int| 0 <= i < s2.arena.len() implies self.tasks@.arena[i] == s2.arena[i] by {
                if i != t && i != n {
                    assert(self.tasks.arena@[i]@ == s1.arena[i]);
                }
            }
            assert(self.tasks@.arena =~= s2.arena);
            assert(self.tasks@ =~= s2);
            crate::task::lemma_linked(s1, s2);
            let k1 = self@;
            assert(k1 =~= k0.forked(t));
            assert forall|i: int| 0 <= i < k1.tasks.arena.len() implies (#[trigger] k1.tasks.arena[i]).valid(k1.heap) by {
                let src = if i < n {
                    i
                } else {
                    t as int
                };
                assert(k0.tasks.arena[src].valid(k0.heap));
                assert forall|f: u64| #[trigger] k1.tasks.arena[i].files.dom().contains(f) implies k1.tasks.arena[i].files[f].refers(
                    k1.heap,
                ) by {
                    assert(k0.tasks.arena[src].files.dom().contains(f));
                }
            }
            assert forall|i: int| 0 <= i < k1.tasks.arena.len() implies frames_in(
                (#[trigger] k1.tasks.arena[i]).space,
                k1.pool.slots.len(),
            ) by {
                let src = if i < n {
                    i
                } else {
                    t as int
                };
                assert(frames_in(k0.tasks.arena[src].space, k0.pool.slots.len()));
                assert forall|p: u64| #[trigger] k1.tasks.arena[i].space.pages.dom().contains(p) implies k1.tasks.arena[i].space.pages[p].frame_id
                    < k1.pool.slots.len() by {
                    assert(k0.tasks.arena[src].space.pages.dom().contains(p));
                }
            }
            assert forall|c: int| 0 <= c < k1.cpus.len() implies ((#[trigger] k1.cpus[c]) matches Some(x) ==> x
                < k1.tasks.arena.len()) by {
                assert(k0.cpus[c] matches Some(x) ==> x < k0.tasks.arena.len());
            }
        }
        Ok(child_id)
    }

    /// Makes the task under `task_id` run the program `path` from its entry on, with a fresh stack
    /// below the top of the user's; descriptors of files that are marked so are closed.
    pub fn do_exec(&mut self, task_id: u64, path: &str, args: Vec<String>, envs: Vec<String>) -> (r: Result<(), &'static str>)
        requires
            old(self).wf(),
            old(self)@.tasks.map.dom().contains(task_id) ==> crate::proc_init::stack_fits(
                args@,
                envs@,
                0,
                crate::task::user_top(),
            ),
        ensures
            final(self).wf(),
            !old(self)@.tasks.map.dom().contains(task_id) ==> r == Err::<(), &'static str>("esrch") && final(self)@
                == old(self)@,
            old(self)@.tasks.map.dom().contains(task_id) ==> r == Ok::<(), &'static str>(()) && final(self)@
                == old(self)@.execed(
                old(self)@.tasks.map[task_id],
                path@,
                crate::proc_init::stack_pointer(args@, envs@, 0, crate::task::user_top()) as u64,
            ),
            old(self)@.tasks.map.dom().contains(task_id) ==> {
                let c = final(self)@.tasks.arena[old(self)@.tasks.map[task_id] as int].thd_ctx;
                &&& c is Some
                &&& c->0.regs.ip == PROG_ENTRY
                &&& c->0.regs.r[crate::consts::N_REGS - 1] == crate::proc_init::stack_pointer(
                    args@,
                    envs@,
                    0,
                    crate::task::user_top(),
                )
            },
    {
        let t: usize = match self.tasks.find(task_id) {
            Some(t) => t,
            None => {
                return Err("esrch");
            },
        };
        let ghost k0 = self@;
        let ghost a = k0.tasks.arena[t as int];
        assert(self.tasks.arena@[t as int]@ == a);
        let init = ProcInit { args, envs, auxv: OrdMap::new() };
        let sp: u64 = init.push_at(USR_STK_OFF + USR_STK_SZ);
        let mut ctx = ThdCtx::default();
        ctx.uctx.set_sp(sp);
        ctx.uctx.set_ip(PROG_ENTRY);
        self.tasks.arena[t].exec_path = path.to_owned();
        self.tasks.arena[t].close_on_exec();
        self.tasks.arena[t].thd_ctx = Some(ctx);
        proof {
            let b = k0.execed(t, path@, sp).tasks.arena[t as int];
            assert(ctx@ =~= b.thd_ctx->0);
            assert(self.tasks.arena@[t as int]@ =~= b);
            assert(self.tasks@.arena =~= k0.tasks.with(t, b).arena);
            assert(self.tasks@ =~= k0.tasks.with(t, b));
            assert(a.valid(k0.heap));
            assert(frames_in(a.space, k0.pool.slots.len()));
            assert forall|f: u64| #[trigger] b.files.dom().contains(f) implies b.files[f].refers(k0.heap) by {
                assert(a.files.dom().contains(f));
            }
            lemma_task_changed(k0, self@, t, b);
            assert(self@ =~= k0.execed(t, path@, sp));
        }
        Ok(())
    }

    /// Gives the task under `task_id` a pipe: the descriptor to read from and the one to write to,
    /// each the lowest free one.
    pub fn do_pipe(&mut self, task_id: u64) -> (r: Result<(u64, u64), &'static str>)
        requires
            old(self).wf(),
        ensures
            final(self).wf(),
            !old(self)@.tasks.map.dom().contains(task_id) ==> r == Err::<(u64, u64), &'static str>("esrch") && final(self)@
                == old(self)@,
            old(self)@.tasks.map.dom().contains(task_id) ==> {
                let t = old(self)@.tasks.map[task_id];
                &&& r is Ok
                &&& two_lowest(old(self)@.tasks.arena[t as int].files, r->Ok_0.0, r->Ok_0.1)
                &&& final(self)@ == old(self)@.piped(t, r->Ok_0.0, r->Ok_0.1)
            },
    {
        match self.tasks.find(task_id) {
            Some(t) => Ok(self.open_pipe(t)),
            None => Err("esrch"),
        }
    }

    /// Gives task `t` a pipe.
    pub(crate) fn open_pipe(&mut self, t: TaskRef) -> (r: (u64, u64))
        requires
            old(self).wf(),
            t < old(self)@.tasks.arena.len(),
        ensures
            final(self).wf(),
            two_lowest(old(self)@.tasks.arena[t as int].files, r.0, r.1),
            final(self)@ == old(self)@.piped(t, r.0, r.1),
    {
        let ghost k0 = self@;
        let ghost a = k0.tasks.arena[t as int];
        assert(self.tasks.arena@[t as int]@ == a);
        let (rd, wr) = PipeNode::pair(&mut self.heap);
        let rd_fd: u64 = self.tasks.arena[t].add_file(FLike::Pipe(rd));
        let wr_fd: u64 = self.tasks.arena[t].add_file(FLike::Pipe(wr));
        proof {
            let b = k0.piped(t, rd_fd, wr_fd).tasks.arena[t as int];
            assert(self.tasks.arena@[t as int]@ =~= b);
            assert(self.tasks@.arena =~= k0.tasks.with(t, b).arena);
            assert(self.tasks@ =~= k0.tasks.with(t, b));
            assert(a.valid(k0.heap));
            assert(frames_in(a.space, k0.pool.slots.len()));
            assert forall|f: u64| #[trigger] b.files.dom().contains(f) implies b.files[f].refers(self@.heap) by {
                if f != rd_fd && f != wr_fd {
                    assert(a.files.dom().contains(f));
                }
            }
            lemma_task_changed(k0, self@, t, b);
            assert(self@ =~= k0.piped(t, rd_fd, wr_fd));
            let mid = a.files.insert(rd_fd, FRef::Pipe(rd));
            assert(mid.dom().contains(rd_fd));
            assert forall|q: u64| rd_fd < q < wr_fd implies #[trigger] a.files.dom().contains(q) by {
                assert(mid.dom().contains(q));
            }
            if wr_fd < rd_fd {
                assert(a.files.dom().contains(wr_fd));
            }
        }
        (rd_fd, wr_fd)
    }

    /// Reaps the first child of the process under `parent_id` that has ended and that `target_pid`
    /// asks for; gives its number and exit code. Where there is none, with bit 0 of `options` the
    /// answer is a pair of zeros.
    pub fn do_wait(&mut self, parent_id: u64, target_pid: i64, options: u64) -> (r: Result<(u64, u64), &'static str>)
        requires
            old(self).wf(),
            target_pid > i64::MIN,
        ensures
            final(self).wf(),
            old(self)@.waited(parent_id, target_pid, options, r, final(self)@),
    {
        let p: usize = match self.tasks.find(parent_id) {
            Some(t) => t,
            None => {
                return Err("esrch");
            },
        };
        let ghost k0 = self@;
        let ghost s = k0.tasks;
        let ghost a = s.arena[p as int];
        assert(self.tasks.arena@[p as int]@ == a);
        let n = self.tasks.arena[p].subtasks.len();
        if n == 0 {
            return Err("echild");
        }
        let pgid: i32 = self.tasks.arena[p].pgid;
        let mut i: usize = 0;
        while i < n
            invariant
                self.wf(),
                self@ == k0,
                old(self)@ == k0,
                s == k0.tasks,
                a == s.arena[p as int],
                p < s.arena.len(),
                s.map.dom().contains(parent_id),
                p == s.map[parent_id],
                pgid == a.pgid,
                n == a.subtasks.len(),
                target_pid > i64::MIN,
                i <= n,
                self.tasks.arena@[p as int].subtasks@ == a.subtasks,
                forall|j: int| 0 <= j < i ==> !s.awaited(p, target_pid, j),
            decreases n - i,
        {
            assert(s.arena[p as int].subtasks[i as int] < s.arena.len());
            let c: usize = self.tasks.arena[p].subtasks[i];
            assert(self.tasks.arena@[c as int]@ == s.arena[c as int]);
            let child = &self.tasks.arena[c];
            let asked = if target_pid == -1 {
                true
            } else if target_pid == 0 {
                child.pgid == pgid
            } else if target_pid > 0 {
                child.id() == target_pid as u64
            } else {
                child.pgid == (-target_pid) as i32
            };
            if asked && child.done() {
                let id: u64 = child.id();
                let code: u64 = child.exit_code;
                assert(s.first_awaited(p, target_pid, i as int));
                self.tasks.reap(id);
                proof {
                    crate::task::lemma_reaped_keeps(s, id);
                    assert(self@ =~= (KernelState { tasks: s.reaped(id), ..k0 }));
                    lemma_tasks_changed(k0, self@);
                }
                return Ok((id, code));
            }
            i += 1;
        }
        if options % 2 == 1 {
            Ok((0, 0))
        } else {
            Err("echild")
        }
    }
}

/// `rd` is the lowest free descriptor, and `wr` the next one.
pub open spec fn two_lowest(m: Map<u64, FRef>, rd: u64, wr: u64) -> bool {
    &&& crate::ipc::lowest_key(m, 0, rd)
    &&& wr > rd
    &&& !m.dom().contains(wr)
    &&& forall|q: u64| rd < q < wr ==> #[trigger] m.dom().contains(q)
}

} // verus!
