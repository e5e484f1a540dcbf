//! What holds of the kernel as a whole.

use vstd::prelude::*;
use crate::consts::{KERN_BASE, MEM_OFF, N_REGS, PAGE_SZ, SIGKILL, SIGSTOP, USR_STK_OFF, USR_STK_SZ, VM_READ, VM_WRITE};
use crate::files::{FRef, FileRef, PipeDir, PipeNode};
use crate::fs::{FsView, InodeType, InodeView};
use crate::kernel_struct::{Kernel, KernelState};
use crate::proc_init::ProcInit;
use crate::task::{TableState, TaskRef, TaskState, TaskTable};
use crate::vm::PgFrame;

verus! {

// ---------------------------------------------------------------------------------------------
// User memory
// ---------------------------------------------------------------------------------------------

/// No two pages have the same frame.
pub open spec fn frames_apart(pages: Map<u64, PgFrame>) -> bool {
    forall|a: u64, b: u64|
        #![trigger pages[a], pages[b]]
        pages.dom().contains(a) && pages.dom().contains(b) && a != b ==> pages[a].frame_id != pages[b].frame_id
}

/// The page of each of the `n` addresses from `start` on has a frame.
pub open spec fn all_framed(pages: Map<u64, PgFrame>, start: int, n: int) -> bool {
    forall|i: int| 0 <= i < n ==> pages.dom().contains(#[trigger] crate::address_space::page_of((start + i) as u64))
}

/// What is at address `x` after bytes were copied to the user.
proof fn lemma_poured(frames: Map<int, Seq<u8>>, pages: Map<u64, PgFrame>, start: int, data: Seq<u8>, off: int, x: int, d: u8)
    requires
        frames_apart(pages),
        0 <= start,
        start + data.len() <= u64::MAX + 1,
        0 <= off <= data.len(),
        0 <= x <= u64::MAX,
        pages.dom().contains(crate::address_space::page_of(x as u64)),
    ensures
        crate::kernel_struct::user_byte(crate::kernel_struct::poured(frames, pages, start, data, off), pages, x, d) == (
        if start + off <= x < start + data.len() {
            data[x - start]
        } else {
            crate::kernel_struct::user_byte(frames, pages, x, d)
        }),
    decreases data.len() - off,
{
    if off < data.len() {
        let addr = start + off;
        let page = crate::address_space::page_of(addr as u64);
        let at = addr % PAGE_SZ as int;
        let n = crate::kernel_struct::in_page(addr, data.len() - off);
        let chunk = data.subrange(off, off + n);
        let id = pages[page].frame_id as int;
        let next = if pages.dom().contains(page) {
            frames.insert(id, crate::kernel_struct::patched(frames[id], at, chunk))
        } else {
            frames
        };
        lemma_poured(next, pages, start, data, off + n, x, d);
        let xp = crate::address_space::page_of(x as u64);
        if addr <= x < addr + n {
            assert(xp == page);
            assert(x % PAGE_SZ as int == at + (x - addr));
            assert(chunk[x - addr] == data[x - start]);
        } else if xp == page {
            assert(x - x % PAGE_SZ as int == addr - at);
            let xo = x % PAGE_SZ as int;
            assert(xo < at || xo >= at + n);
        } else if pages.dom().contains(page) {
            assert(pages[xp].frame_id != pages[page].frame_id);
        }
    }
}

/// What is copied to a user's memory is what is read from there: where all pages have frames of
/// their own, copying bytes out and back gives the same bytes.
pub proof fn law_copy_back(k: KernelState, start: u64, data: Seq<u8>)
    requires
        k.cur() is Some,
        start + data.len() <= u64::MAX + 1,
        frames_apart(k.cur_state().space.pages),
        all_framed(k.cur_state().space.pages, start as int, data.len() as int),
    ensures
        k.with_poured(start, data).user_bytes(start, data.len()) == data,
{
    let pages = k.cur_state().space.pages;
    let got = k.with_poured(start, data).user_bytes(start, data.len());
    assert forall|i: int| 0 <= i < data.len() implies got[i] == data[i] by {
        assert(pages.dom().contains(crate::address_space::page_of((start + i) as u64)));
        lemma_poured(k.pool.frames, pages, start as int, data, 0, start + i, 0);
    }
    assert(got =~= data);
}

/// Copying to a user's memory leaves all other bytes as they were.
pub proof fn law_copy_keeps_rest(k: KernelState, start: u64, data: Seq<u8>, x: int, d: u8)
    requires
        k.cur() is Some,
        start + data.len() <= u64::MAX + 1,
        frames_apart(k.cur_state().space.pages),
        0 <= x <= u64::MAX,
        x < start || x >= start + data.len(),
    ensures
        ({
            let pages = k.cur_state().space.pages;
            crate::kernel_struct::user_byte(k.with_poured(start, data).pool.frames, pages, x, d)
                == crate::kernel_struct::user_byte(k.pool.frames, pages, x, d)
        }),
{
    let pages = k.cur_state().space.pages;
    if pages.dom().contains(crate::address_space::page_of(x as u64)) {
        lemma_poured(k.pool.frames, pages, start as int, data, 0, x, d);
    }
}

proof fn lemma_first_free(slots: Seq<bool>)
    requires
        !crate::memory::none_free(slots),
    ensures
        exists|i: int| crate::memory::first_free(slots, i),
    decreases slots.len(),
{
    let t = slots.drop_last();
    if crate::memory::none_free(t) {
        let i = choose|i: int| 0 <= i < slots.len() && slots[i];
        assert(i == slots.len() - 1) by {
            if i < t.len() {
                assert(!t[i]);
            }
        }
        assert forall|j: int| 0 <= j < i implies !slots[j] by {
            assert(!t[j]);
        }
        assert(crate::memory::first_free(slots, i));
    } else {
        lemma_first_free(t);
        let i = choose|i: int| crate::memory::first_free(t, i);
        assert forall|j: int| 0 <= j < i implies !slots[j] by {
            assert(!t[j]);
        }
        assert(slots[i] == t[i]);
        assert(crate::memory::first_free(slots, i));
    }
}

/// The frames of all pages are in use, each by someone.
pub open spec fn frames_used(pages: Map<u64, PgFrame>, slots: Seq<bool>) -> bool {
    forall|a: u64| #[trigger] pages.dom().contains(a) ==> pages[a].frame_id < slots.len() && !slots[pages[a].frame_id as int]
        && 1 <= pages[a].rc < u64::MAX
}

/// After a fork neither process sees what the other writes: when one of them, `w`, has written
/// bytes of one page, every byte of the other, `o`, is what it was in the parent before the fork.
pub proof fn law_fork_isolates(k: KernelState, t: TaskRef, w: TaskRef, o: TaskRef, addr: u64, data: Seq<u8>, x: int, d: u8)
    requires
        k.sound(),
        t < k.tasks.arena.len() <= usize::MAX,
        k.pool.slots.len() <= usize::MAX,
        (w == t && o == k.tasks.arena.len()) || (o == t && w == k.tasks.arena.len()),
        frames_used(k.tasks.arena[t as int].space.pages, k.pool.slots),
        0 < data.len() <= PAGE_SZ - addr % PAGE_SZ,
        0 <= x <= u64::MAX,
        ({
            let k1 = k.forked(t);
            KernelState { cpus: k1.cpus.update(0, Some(w)), ..k1 }.faulted(addr, true).0
        }),
    ensures
        ({
            let k1 = k.forked(t);
            let k2 = KernelState { cpus: k1.cpus.update(0, Some(w)), ..k1 }.faulted(addr, true).1;
            let k3 = k2.with_poured(addr, data);
            crate::kernel_struct::user_byte(k3.pool.frames, k3.tasks.arena[o as int].space.pages, x, d)
                == crate::kernel_struct::user_byte(k.pool.frames, k.tasks.arena[t as int].space.pages, x, d)
        }),
{
    let pages = k.tasks.arena[t as int].space.pages;
    let k1 = k.forked(t);
    let kw = KernelState { cpus: k1.cpus.update(0, Some(w)), ..k1 };
    let k2 = kw.faulted(addr, true).1;
    let k3 = k2.with_poured(addr, data);
    let shared = crate::address_space::forked_pages(pages);
    let page = crate::address_space::page_of(addr);
    let i = crate::kernel_struct::lowest_frame(k.pool.slots);
    assert(kw.cur() == Some(w));
    assert(kw.tasks.arena[w as int].space.pages == shared);
    assert(kw.tasks.arena[o as int].space.pages == shared);
    assert(!(shared.dom().contains(page) && shared[page].rc <= 1)) by {
        if shared.dom().contains(page) {
            assert(pages.dom().contains(page));
        }
    }
    lemma_first_free(k.pool.slots);
    assert(crate::memory::first_free(k.pool.slots, i));
    assert(k2.cur_state().space.pages == shared.insert(page, PgFrame { frame_id: i as usize, rc: 1 }));
    let mine = k2.cur_state().space.pages;
    assert(mine.dom().contains(page) && mine[page].frame_id == i);
    assert(crate::kernel_struct::in_page(addr as int, data.len() as int) == data.len());
    assert(k3.pool.frames == crate::kernel_struct::poured(k2.pool.frames, mine, addr as int, data, 0));
    reveal_with_fuel(crate::kernel_struct::poured, 2);
    let xp = crate::address_space::page_of(x as u64);
    assert(k3.tasks.arena[o as int].space.pages == shared);
    if shared.dom().contains(xp) {
        assert(pages.dom().contains(xp));
        assert(shared[xp].frame_id == pages[xp].frame_id);
        assert(pages[xp].frame_id != i);
        assert(k3.pool.frames[pages[xp].frame_id as int] == k.pool.frames[pages[xp].frame_id as int]);
    }
}

// ---------------------------------------------------------------------------------------------
// Frames
// ---------------------------------------------------------------------------------------------

/// A free frame stands in the list of free frames behind those before it, and every frame in the
/// list is free.
proof fn lemma_free_rank(slots: Seq<bool>)
    requires
        slots.len() <= usize::MAX,
    ensures
        forall|i: int|
            0 <= i < slots.len() && slots[i] ==> {
                let r = #[trigger] crate::memory::free_list(slots.take(i)).len() as int;
                r < crate::memory::free_list(slots).len() && crate::memory::free_list(slots)[r] == i
            },
        forall|r: int|
            0 <= r < crate::memory::free_list(slots).len() ==> {
                let i = (#[trigger] crate::memory::free_list(slots)[r]) as int;
                i < slots.len() && slots[i] && crate::memory::free_list(slots.take(i)).len() == r
            },
    decreases slots.len(),
{
    if slots.len() > 0 {
        let t = slots.drop_last();
        let f = crate::memory::free_list(t);
        let g = crate::memory::free_list(slots);
        lemma_free_rank(t);
        assert(slots.take(t.len() as int) =~= t);
        assert forall|i: int| 0 <= i < slots.len() && slots[i] implies {
            let r = #[trigger] crate::memory::free_list(slots.take(i)).len() as int;
            r < g.len() && g[r] == i
        } by {
            if i < t.len() {
                assert(t.take(i) =~= slots.take(i));
                assert(t[i]);
            }
        }
        assert forall|r: int| 0 <= r < g.len() implies {
            let i = (#[trigger] g[r]) as int;
            i < slots.len() && slots[i] && crate::memory::free_list(slots.take(i)).len() == r
        } by {
            if r < f.len() {
                let i = f[r] as int;
                assert(t[i]);
                assert(t.take(i) =~= slots.take(i));
            }
        }
    }
}

/// Which frames are free after some were given back.
proof fn lemma_given_back(slots: Seq<bool>, pages: Seq<u64>, n: int)
    requires
        0 <= n <= pages.len(),
        forall|j: int| 0 <= j < pages.len() ==> (#[trigger] pages[j]) >= MEM_OFF,
    ensures
        crate::kernel_struct::given_back(slots, pages, n).len() == slots.len(),
        forall|i: int|
            0 <= i < slots.len() ==> (#[trigger] crate::kernel_struct::given_back(slots, pages, n)[i]) == (slots[i] || exists|j: int|
                0 <= j < n && ((#[trigger] pages[j]) - MEM_OFF) / PAGE_SZ as int == i),
    decreases n,
{
    if n > 0 {
        lemma_given_back(slots, pages, n - 1);
        let s = crate::kernel_struct::given_back(slots, pages, n - 1);
        let g = crate::kernel_struct::given_back(slots, pages, n);
        let x = (pages[n - 1] - MEM_OFF) / PAGE_SZ as int;
        assert forall|i: int| 0 <= i < slots.len() implies (#[trigger] g[i]) == (slots[i] || exists|j: int|
            0 <= j < n && ((#[trigger] pages[j]) - MEM_OFF) / PAGE_SZ as int == i) by {
            assert(g[i] == (s[i] || i == x));
            if s[i] && !slots[i] {
                let j = choose|j: int| 0 <= j < n - 1 && ((#[trigger] pages[j]) - MEM_OFF) / PAGE_SZ as int == i;
                assert(0 <= j < n && (pages[j] - MEM_OFF) / PAGE_SZ as int == i);
            }
            if i == x {
                assert((pages[n - 1] - MEM_OFF) / PAGE_SZ as int == i);
            }
            if exists|j: int| 0 <= j < n && ((#[trigger] pages[j]) - MEM_OFF) / PAGE_SZ as int == i {
                let j = choose|j: int| 0 <= j < n && ((#[trigger] pages[j]) - MEM_OFF) / PAGE_SZ as int == i;
                if j < n - 1 {
                    assert(0 <= j < n - 1 && (pages[j] - MEM_OFF) / PAGE_SZ as int == i);
                }
            }
        }
    }
}

/// Giving back the pages that were allocated restores the pool: the same frames are free again.
pub proof fn law_free_undoes_alloc(slots: Seq<bool>, count: nat)
    requires
        slots.len() <= usize::MAX,
        slots.len() * PAGE_SZ + MEM_OFF <= u64::MAX,
    ensures
        ({
            let pages = crate::kernel_struct::page_addrs(slots, count);
            crate::kernel_struct::given_back(crate::memory::first_taken(slots, count), pages, pages.len() as int) == slots
        }),
{
    let all = crate::memory::free_list(slots);
    let m = if count < all.len() {
        count as int
    } else {
        all.len() as int
    };
    let pages = crate::kernel_struct::page_addrs(slots, count);
    let left = crate::memory::first_taken(slots, count);
    lemma_free_rank(slots);
    assert forall|j: int| 0 <= j < pages.len() implies (#[trigger] pages[j]) == all[j] * PAGE_SZ + MEM_OFF && (pages[j] - MEM_OFF)
        / PAGE_SZ as int == all[j] && all[j] < slots.len() by {
        assert(all[j] < slots.len());
        assert(all[j] * PAGE_SZ + MEM_OFF <= u64::MAX);
    }
    lemma_given_back(left, pages, pages.len() as int);
    let g = crate::kernel_struct::given_back(left, pages, pages.len() as int);
    assert forall|i: int| 0 <= i < slots.len() implies g[i] == slots[i] by {
        let r = crate::memory::free_list(slots.take(i)).len() as int;
        if slots[i] {
            assert(all[r] == i);
            if r < m {
                assert((pages[r] - MEM_OFF) / PAGE_SZ as int == i);
            }
        } else if exists|j: int| 0 <= j < pages.len() && ((#[trigger] pages[j]) - MEM_OFF) / PAGE_SZ as int == i {
            let j = choose|j: int| 0 <= j < pages.len() && ((#[trigger] pages[j]) - MEM_OFF) / PAGE_SZ as int == i;
            assert(all[j] == i);
            assert(slots[all[j] as int]);
        }
    }
    assert(g =~= slots);
}

proof fn lemma_first_from(slots: Seq<bool>, start: int, k: int)
    requires
        0 <= start < slots.len(),
        0 <= k < slots.len(),
        slots[crate::memory::round_from(start, k, slots.len() as int)],
    ensures
        exists|i: int| crate::memory::first_free_from(slots, start, i),
    decreases k,
{
    let n = slots.len() as int;
    if exists|j: int| 0 <= j < k && slots[#[trigger] crate::memory::round_from(start, j, n)] {
        let j = choose|j: int| 0 <= j < k && slots[#[trigger] crate::memory::round_from(start, j, n)];
        lemma_first_from(slots, start, j);
    } else {
        let i = crate::memory::round_from(start, k, n);
        assert(crate::memory::first_free_from(slots, start, i));
    }
}

/// Frames that a task gains were free: taking `n` frames leaves `n` fewer free ones, and none that
/// was in use becomes free.
pub proof fn law_growth_takes_free_frames(slots: Seq<bool>, now: u64, n: nat)
    requires
        n <= crate::utils::free_count(slots),
    ensures
        ({
            let left = crate::syscalls::frames_taken(slots, now, n);
            &&& left.len() == slots.len()
            &&& crate::utils::free_count(left) + n == crate::utils::free_count(slots)
            &&& forall|i: int| 0 <= i < slots.len() && #[trigger] left[i] ==> slots[i]
        }),
    decreases n,
{
    if n > 0 {
        law_growth_takes_free_frames(slots, now, (n - 1) as nat);
        let s = crate::syscalls::frames_taken(slots, now, (n - 1) as nat);
        crate::memory::lemma_free_count_zero(s);
        let f = choose|i: int| 0 <= i < s.len() && s[i];
        let start = crate::memory::reduced(now as int, s.len());
        let k = crate::memory::lemma_round_visits_all(s.len() as int, start, f);
        lemma_first_from(s, start, k);
        let i = crate::syscalls::next_frame(s, now);
        assert(crate::memory::first_free_from(s, start, i));
        assert(0 <= i < s.len() && s[i]);
        crate::memory::lemma_free_count_update(s, i);
    }
}

// ---------------------------------------------------------------------------------------------
// Files
// ---------------------------------------------------------------------------------------------

/// A read gives back what a write wrote: when a file has been written where it stands and is set
/// back to that place, reading as many bytes succeeds and yields those that were written.
pub proof fn law_read_gives_back(k: KernelState, f: FileRef, buf: u64, count: u64)
    requires
        f.valid(k.heap),
        crate::fs::writable(
            k.fs,
            f.ino,
            f.state(k.heap).off as int,
            k.user_bytes(buf, count as nat),
        ),
        k.write_file(f, buf, count).r is Ok,
    ensures
        ({
            let off = f.state(k.heap).off;
            let k1 = k.write_file(f, buf, count).k;
            let k2 = KernelState { heap: k1.heap.with_off(f.desc as int, off), ..k1 };
            &&& k.write_file(f, buf, count).r == Ok::<u64, &'static str>(count)
            &&& k2.read_file(f, buf, count).r == Ok::<u64, &'static str>(count)
            &&& k2.file_bytes(f, count) == k.user_bytes(buf, count as nat)
        }),
{
    let off = f.state(k.heap).off;
    let data = k.user_bytes(buf, count as nat);
    assert(data.len() == count);
    crate::fs::law_read_back(k.fs, k.cache, k.disk, f.ino, off as int, data);
    let k1 = k.write_file(f, buf, count).k;
    let k2 = KernelState { heap: k1.heap.with_off(f.desc as int, off), ..k1 };
    assert(f.state(k2.heap).off == off);
}

/// Looking at a user's memory in order to read it changes nothing.
proof fn lemma_looking_changes_nothing(k: KernelState, addr: int, n: nat)
    ensures
        k.faulted_pages(addr, n, false).1 == k,
    decreases n,
{
    if n > 0 && k.faulted(addr as u64, false).0 {
        lemma_looking_changes_nothing(k, addr + PAGE_SZ, (n - 1) as nat);
    }
}

proof fn lemma_reached_to_read(k: KernelState, addr: u64, len: u64)
    ensures
        k.reached(addr, len, false).1 == k,
{
    if crate::syscalls::user_range(addr, len) && len > 0 {
        let first = crate::address_space::page_of(addr);
        let last = crate::address_space::page_of((addr + len - 1) as u64);
        lemma_looking_changes_nothing(k, first as int, ((last - first) / PAGE_SZ as int + 1) as nat);
    }
}

/// A page of a user that is written gets a frame of its own, and the pages that had them keep them.
#[verifier::spinoff_prover]
proof fn lemma_written_page(k: KernelState, addr: u64)
    requires
        k.cur() matches Some(t) && t < k.tasks.arena.len(),
        k.cpus.len() > 0,
        k.pool.slots.len() <= usize::MAX,
        frames_apart(k.cur_state().space.pages),
        frames_used(k.cur_state().space.pages, k.pool.slots),
        k.faulted(addr, true).0,
    ensures
        ({
            let k1 = k.faulted(addr, true).1;
            &&& k1.cpus == k.cpus
            &&& k1.tasks.arena.len() == k.tasks.arena.len()
            &&& k1.pool.slots.len() == k.pool.slots.len()
            &&& frames_apart(k1.cur_state().space.pages)
            &&& frames_used(k1.cur_state().space.pages, k1.pool.slots)
            &&& forall|a: u64| #[trigger]
                k.cur_state().space.pages.dom().contains(a) ==> k1.cur_state().space.pages.dom().contains(a)
            &&& k1.cur_state().space.pages.dom().contains(crate::address_space::page_of(addr))
        }),
{
    let pages = k.cur_state().space.pages;
    let page = crate::address_space::page_of(addr);
    let k1 = k.faulted(addr, true).1;
    if pages.dom().contains(page) && pages[page].rc <= 1 {
        assert(k1.cur_state().space.pages == pages);
        assert(k1.pool == k.pool);
    } else {
        lemma_first_free(k.pool.slots);
        let i = crate::kernel_struct::lowest_frame(k.pool.slots);
        assert(crate::memory::first_free(k.pool.slots, i));
        let q = pages.insert(page, PgFrame { frame_id: i as usize, rc: 1 });
        assert(k1.cur_state().space.pages == q);
        assert(k1.pool.slots == k.pool.slots.update(i, false));
        assert forall|a: u64, b: u64|
            #![trigger q[a], q[b]]
            q.dom().contains(a) && q.dom().contains(b) && a != b implies q[a].frame_id != q[b].frame_id by {
            if a != page {
                assert(pages.dom().contains(a) && pages[a].frame_id == q[a].frame_id);
            }
            if b != page {
                assert(pages.dom().contains(b) && pages[b].frame_id == q[b].frame_id);
            }
        }
        assert forall|a: u64| #[trigger] q.dom().contains(a) implies q[a].frame_id < k1.pool.slots.len()
            && !k1.pool.slots[q[a].frame_id as int] && 1 <= q[a].rc < u64::MAX by {
            if a != page {
                assert(pages.dom().contains(a));
            }
        }
    }
}

/// The same for several pages, one after the other.
#[verifier::spinoff_prover]
proof fn lemma_written_pages(k: KernelState, addr: int, n: nat)
    requires
        k.cur() matches Some(t) && t < k.tasks.arena.len(),
        k.cpus.len() > 0,
        k.pool.slots.len() <= usize::MAX,
        frames_apart(k.cur_state().space.pages),
        frames_used(k.cur_state().space.pages, k.pool.slots),
        0 <= addr,
        addr % PAGE_SZ as int == 0,
        addr + n * PAGE_SZ <= u64::MAX + 1,
        k.faulted_pages(addr, n, true).0,
    ensures
        ({
            let k1 = k.faulted_pages(addr, n, true).1;
            &&& frames_apart(k1.cur_state().space.pages)
            &&& frames_used(k1.cur_state().space.pages, k1.pool.slots)
            &&& forall|a: u64| #[trigger]
                k.cur_state().space.pages.dom().contains(a) ==> k1.cur_state().space.pages.dom().contains(a)
            &&& forall|a: u64|
                addr <= a < addr + n * PAGE_SZ && a % PAGE_SZ == 0 ==> #[trigger] k1.cur_state().space.pages.dom().contains(a)
        }),
    decreases n,
{
    if n > 0 {
        let k2 = k.faulted(addr as u64, true).1;
        let k1 = k.faulted_pages(addr, n, true).1;
        assert(k1 == k2.faulted_pages(addr + PAGE_SZ, (n - 1) as nat, true).1);
        assert(k2.faulted_pages(addr + PAGE_SZ, (n - 1) as nat, true).0);
        lemma_written_page(k, addr as u64);
        assert(crate::address_space::page_of(addr as u64) == addr);
        lemma_written_pages(k2, addr + PAGE_SZ, (n - 1) as nat);
        assert forall|a: u64| #[trigger] k.cur_state().space.pages.dom().contains(a) implies k1.cur_state().space.pages.dom().contains(
            a,
        ) by {
            assert(k2.cur_state().space.pages.dom().contains(a));
        }
        assert forall|a: u64|
            addr <= a < addr + n * PAGE_SZ && a % PAGE_SZ == 0 implies #[trigger] k1.cur_state().space.pages.dom().contains(a) by {
            if a < addr + PAGE_SZ {
                assert(a == addr);
                assert(k2.cur_state().space.pages.dom().contains(a));
            } else {
                assert(addr + PAGE_SZ <= a < addr + PAGE_SZ + (n - 1) * PAGE_SZ);
            }
        }
    }
}

/// A buffer that the kernel may write has frames, each page its own.
proof fn lemma_reached_to_write(k: KernelState, addr: u64, len: u64)
    requires
        k.cur() matches Some(t) && t < k.tasks.arena.len(),
        k.cpus.len() > 0,
        k.pool.slots.len() <= usize::MAX,
        frames_apart(k.cur_state().space.pages),
        frames_used(k.cur_state().space.pages, k.pool.slots),
        len > 0,
        k.reached(addr, len, true).0,
    ensures
        ({
            let pages = k.reached(addr, len, true).1.cur_state().space.pages;
            frames_apart(pages) && all_framed(pages, addr as int, len as int)
        }),
{
    let first = crate::address_space::page_of(addr);
    let last = crate::address_space::page_of((addr + len - 1) as u64);
    let n = ((last - first) / PAGE_SZ as int + 1) as nat;
    assert(first % PAGE_SZ == 0 && last % PAGE_SZ == 0);
    assert(n * PAGE_SZ == last - first + PAGE_SZ);
    lemma_written_pages(k, first as int, n);
    let pages = k.reached(addr, len, true).1.cur_state().space.pages;
    assert forall|i: int| 0 <= i < len implies pages.dom().contains(
        #[trigger] crate::address_space::page_of((addr + i) as u64),
    ) by {
        let a = crate::address_space::page_of((addr + i) as u64);
        assert(a % PAGE_SZ == 0 && first <= a <= last);
    }
}

/// The running task's descriptor `fd` is the file `f`.
pub open spec fn has_file(k: KernelState, fd: u64, f: FileRef) -> bool {
    k.cur() is Some && k.cur_state().files.dom().contains(fd) && k.cur_state().files[fd] == FRef::File(f)
}

/// A write through a descriptor writes all bytes or fails, and a descriptor through which `count`
/// bytes were written stands so many bytes further on. Its file holds the bytes at the place where
/// the descriptor stood; the user's memory, the descriptors of all tasks and the places of all
/// other open files stay.
#[verifier::spinoff_prover]
pub proof fn law_write_moves_on(k: KernelState, fd: u64, f: FileRef, buf: u64, count: u64, d: int)
    requires
        k.sound(),
        k.fs.wf(),
        has_file(k, fd, f),
        count > 0,
        k.writable(fd, count),
        k.sys_write(fd, buf, count).r is Ok,
        0 <= d < k.heap.descs.len(),
    ensures
        ({
            let off = f.state(k.heap).off;
            let k1 = k.sys_write(fd, buf, count).k;
            let n = k1.fs.inodes[f.ino];
            &&& k.sys_write(fd, buf, count).r == Ok::<u64, &'static str>(count)
            &&& f.state(k1.heap).off == off + count
            &&& f.state(k1.heap).opt == f.state(k.heap).opt
            &&& d != f.desc ==> k1.heap.descs[d] == k.heap.descs[d]
            &&& crate::fs::read_bytes(k1.cache, k1.disk, n, off as int, count as int) == k.user_bytes(buf, count as nat)
            &&& n.size == (if off + count > k.fs.inodes[f.ino].size { (off + count) as u64 } else { k.fs.inodes[f.ino].size })
            &&& k1.tasks == k.tasks && k1.pool == k.pool && k1.cpus == k.cpus
        }),
{
    lemma_reached_to_read(k, buf, count);
    let off = f.state(k.heap).off;
    let data = k.user_bytes(buf, count as nat);
    assert(data.len() == count);
    assert(k.tasks.arena[k.cur()->0 as int].valid(k.heap)) by {
        assert(k.cpus[0] matches Some(x) ==> x < k.tasks.arena.len());
    }
    assert(k.cur_state().files[fd].refers(k.heap));
    crate::fs::law_read_back(k.fs, k.cache, k.disk, f.ino, off as int, data);
}

/// Writes through one descriptor go on where the last one ended: when two went through, the file
/// holds the bytes of the first and then those of the second at the place where the descriptor
/// stood, as after one write of both.
#[verifier::spinoff_prover]
pub proof fn law_writes_follow_each_other(
    k0: Kernel,
    k1: Kernel,
    fd: u64,
    f: FileRef,
    buf1: u64,
    count1: u64,
    buf2: u64,
    count2: u64,
)
    requires
        k0.wf(),
        k1.wf(),
        has_file(k0@, fd, f),
        count1 > 0,
        count2 > 0,
        k0@.writable(fd, count1),
        k0@.sys_write(fd, buf1, count1).r is Ok,
        k1@ == k0@.sys_write(fd, buf1, count1).k,
        k1@.writable(fd, count2),
        k1@.sys_write(fd, buf2, count2).r is Ok,
    ensures
        ({
            let off = f.state(k0@.heap).off as int;
            let k2 = k1@.sys_write(fd, buf2, count2).k;
            let both = k0@.user_bytes(buf1, count1 as nat) + k0@.user_bytes(buf2, count2 as nat);
            &&& f.state(k2.heap).off == off + count1 + count2
            &&& crate::fs::read_bytes(k2.cache, k2.disk, k2.fs.inodes[f.ino], off, count1 + count2) == both
        }),
{
    let k = k0@;
    let off = f.state(k.heap).off as int;
    let k2 = k1@.sys_write(fd, buf2, count2).k;
    let b1 = k.user_bytes(buf1, count1 as nat);
    let b2 = k.user_bytes(buf2, count2 as nat);
    assert(k.tasks.arena[k.cur()->0 as int].valid(k.heap)) by {
        assert(k.cpus[0] matches Some(x) ==> x < k.tasks.arena.len());
    }
    assert(k.cur_state().files[fd].refers(k.heap));
    law_write_moves_on(k, fd, f, buf1, count1, f.desc as int);
    law_write_moves_on(k1@, fd, f, buf2, count2, f.desc as int);
    lemma_reached_to_read(k, buf1, count1);
    lemma_reached_to_read(k1@, buf2, count2);
    let n1 = k1@.fs.inodes[f.ino];
    let n2 = k2.fs.inodes[f.ino];
    let got1 = crate::fs::read_bytes(k1@.cache, k1@.disk, n1, off, count1 as int);
    let got2 = crate::fs::read_bytes(k2.cache, k2.disk, n2, off + count1, count2 as int);
    let got = crate::fs::read_bytes(k2.cache, k2.disk, n2, off, count1 + count2);
    assert(got1 == b1);
    assert(got2 == b2);
    assert(k2.fs == crate::fs::written(k1@.fs, f.ino, off + count1, b2));
    assert((k2.cache, k2.disk) == crate::fs::written_data(k1@.fs, k1@.cache, k1@.disk, f.ino, off + count1, b2));
    assert(b1.len() == count1 && b2.len() == count2);
    assert(crate::fs::data_end(n1) >= off + count1);
    assert(crate::fs::data_end(n2) >= off + count1 + count2);
    assert forall|i: int| 0 <= i < count1 + count2 implies got[i] == (b1 + b2)[i] by {
        if i < count1 {
            crate::fs::law_write_keeps_rest(k1@.fs, k1@.cache, k1@.disk, f.ino, off + count1, b2, off + i);
            assert(got1[i] == b1[i]);
        } else {
            assert(got2[i - count1] == b2[i - count1]);
        }
    }
    assert(got =~= b1 + b2);
}

/// A read through a descriptor yields as many bytes of the file from where it stands as are asked
/// for and are there. They are then in the user's buffer, and the descriptor stands behind them.
/// The file does not change, nor the place of any other open file.
#[verifier::spinoff_prover]
pub proof fn law_read_moves_on(k: KernelState, fd: u64, f: FileRef, buf: u64, count: u64, d: int)
    requires
        k.sound(),
        k.pool.slots.len() <= usize::MAX,
        has_file(k, fd, f),
        frames_apart(k.cur_state().space.pages),
        frames_used(k.cur_state().space.pages, k.pool.slots),
        count > 0,
        k.readable(fd, count),
        f.state(k.heap).off + count <= u64::MAX,
        k.sys_read(fd, buf, count).r is Ok,
        0 <= d < k.heap.descs.len(),
    ensures
        ({
            let off = f.state(k.heap).off;
            let end = crate::fs::data_end(k.fs.inodes[f.ino]);
            let n = k.sys_read(fd, buf, count).r->Ok_0;
            let k1 = k.sys_read(fd, buf, count).k;
            &&& n == (if end <= off { 0 } else if end - off < count { end - off } else { count as int })
            &&& f.state(k1.heap).off == off + n
            &&& d != f.desc ==> k1.heap.descs[d] == k.heap.descs[d]
            &&& forall|i: int|
                0 <= i < n ==> #[trigger] k1.user_bytes(buf, n as nat)[i] == crate::fs::file_byte(
                    k.cache,
                    k.disk,
                    k.fs.inodes[f.ino].blocks,
                    off + i,
                )
            &&& k1.fs == k.fs
            &&& k1.cur_state().files == k.cur_state().files
        }),
{
    assert(k.cpus[0] matches Some(x) ==> x < k.tasks.arena.len());
    let t = k.cur()->0 as int;
    crate::syscalls::law_reaching_keeps(k, buf, count, true);
    lemma_reached_to_write(k, buf, count);
    let kr = k.reached(buf, count, true).1;
    assert(kr.tasks.arena[t] == (TaskState { space: kr.tasks.arena[t].space, ..k.tasks.arena[t] }));
    assert(k.tasks.arena[t].valid(k.heap));
    assert(k.cur_state().files[fd].refers(k.heap));
    let data = kr.file_bytes(f, count);
    assert(data.len() <= count);
    let pages = kr.cur_state().space.pages;
    assert forall|i: int| 0 <= i < data.len() implies pages.dom().contains(
        #[trigger] crate::address_space::page_of((buf + i) as u64),
    ) by {}
    law_copy_back(kr, buf, data);
    let k1 = k.sys_read(fd, buf, count).k;
    assert(k1.user_bytes(buf, data.len()) == kr.with_poured(buf, data).user_bytes(buf, data.len()));
}

/// Closing a duplicate of a file's descriptor undoes the duplication.
pub proof fn law_close_undoes_dup(k: KernelState, fd: u64)
    requires
        k.sound(),
        k.cur() is Some,
        fd < crate::syscalls::FD_LIMIT,
        k.cur_state().files.dom().contains(fd),
        k.cur_state().files[fd] is File,
        exists|q: u64| crate::ipc::lowest_key(k.cur_state().files, 0, q),
    ensures
        k.sys_dup(fd).r is Ok,
        k.sys_dup(fd).k.sys_close(k.sys_dup(fd).r->Ok_0).k == k,
        k.sys_dup(fd).k.sys_close(k.sys_dup(fd).r->Ok_0).r == Ok::<u64, &'static str>(0),
{
    let a = k.cur_state();
    let t = k.cur()->0;
    let new = crate::syscalls::lowest_fd(a.files);
    assert(crate::ipc::lowest_key(a.files, 0, new));
    let k1 = k.sys_dup(fd).k;
    let b = k1.cur_state();
    assert(b.files.remove(new) =~= a.files);
    assert((TaskState { files: b.files.remove(new), ..b }) =~= a);
    let k2 = k1.sys_close(new).k;
    assert(k2.tasks.arena =~= k.tasks.arena);
    assert(k2 =~= k);
}

/// A descriptor and its duplicate stand at the same place of the same file, so that what one of
/// them reads the other does not read again.
pub proof fn law_dup_moves_along(k: KernelState, fd: u64, buf: u64, count: u64)
    requires
        k.sound(),
        k.cur() is Some,
        fd < crate::syscalls::FD_LIMIT,
        k.cur_state().files.dom().contains(fd),
        k.cur_state().files[fd] is File,
    ensures
        ({
            let k1 = k.sys_dup(fd).k;
            let f = k1.cur_state().files[fd]->File_0;
            let g = k1.cur_state().files[k.sys_dup(fd).r->Ok_0]->File_0;
            let k2 = k1.read_file(g, buf, count).k;
            &&& k1.read_file(g, buf, count) == k1.read_file(f, buf, count)
            &&& f.state(k2.heap) == g.state(k2.heap)
        }),
{
    let a = k.cur_state();
    let k1 = k.sys_dup(fd).k;
    let new = crate::syscalls::lowest_fd(a.files);
    let f = k1.cur_state().files[fd]->File_0;
    let g = k1.cur_state().files[new]->File_0;
    assert(g.desc == f.desc && g.ino == f.ino);
}

/// Of the two descriptors that a task gets for a pipe, the first is for reading and the second for
/// writing: what is written through the second is what a read through the first yields. Both are
/// the lowest ones that were free, and nothing else refers to the pipe.
pub proof fn law_pipe_carries(k: KernelState, t: TaskRef, rd: u64, wr: u64, b: Seq<u8>, n: int, i: int, fd: u64)
    requires
        k.sound(),
        k.heap.pipes.len() <= usize::MAX,
        t < k.tasks.arena.len(),
        crate::kernel_struct::two_lowest(k.tasks.arena[t as int].files, rd, wr),
        0 < b.len() <= n <= usize::MAX,
        0 <= i < k.tasks.arena.len(),
        k.tasks.arena[i].files.dom().contains(fd),
    ensures
        ({
            let k1 = k.piped(t, rd, wr);
            let files = k1.tasks.arena[t as int].files;
            let r = files[rd]->Pipe_0;
            let w = files[wr]->Pipe_0;
            let h = w.writing(k1.heap, b).heap;
            &&& files.dom().contains(rd) && files[rd] is Pipe && files.dom().contains(wr) && files[wr] is Pipe
            &&& r.dir == PipeDir::Rd && w.dir == PipeDir::Wr
            &&& r.read_result(k1.heap, n) == Err::<usize, &'static str>("again")
            &&& w.writing(k1.heap, b).r == Ok::<usize, &'static str>(b.len() as usize)
            &&& r.read_result(h, n) == Ok::<usize, &'static str>(b.len() as usize)
            &&& r.bytes_read(h, n) == b
            &&& r.pipe(r.after_reading(h, n, true)).buf.len() == 0
            &&& r.writing(k1.heap, b).r == Ok::<usize, &'static str>(0)
            &&& k1.tasks.arena[i].files[fd] == k.tasks.arena[i].files[fd]
            &&& k.tasks.arena[i].files[fd] matches FRef::Pipe(p) ==> p.data != r.data && p.pipe(h) == p.pipe(k.heap)
        }),
{
    let k1 = k.piped(t, rd, wr);
    let w = k1.tasks.arena[t as int].files[wr]->Pipe_0;
    assert(w.pipe(k1.heap).buf + b =~= b);
    assert(b.take(b.len() as int) =~= b);
    assert(k.tasks.arena[i].valid(k.heap));
    assert(k.tasks.arena[i].files[fd].refers(k.heap));
}

/// All numbers below `q` are keys, so there are at least `q` keys.
proof fn lemma_keys_below<V>(m: Map<u64, V>, q: int)
    requires
        m.dom().finite(),
        0 <= q <= u64::MAX + 1,
        forall|x: u64| x < q ==> m.dom().contains(x),
    ensures
        q <= m.len(),
    decreases q,
{
    if q > 0 {
        let m1 = m.remove((q - 1) as u64);
        lemma_keys_below(m1, q - 1);
        assert(m1.dom() == m.dom().remove((q - 1) as u64));
    }
}

/// There is a lowest free number, and it is not above the number of keys.
proof fn lemma_lowest_free<V>(m: Map<u64, V>, n: int)
    requires
        m.dom().finite(),
        m.len() <= u64::MAX,
        0 <= n <= m.len(),
        forall|x: u64| x < n ==> m.dom().contains(x),
    ensures
        exists|q: u64| crate::ipc::lowest_key(m, 0, q),
        forall|q: u64| crate::ipc::lowest_key(m, 0, q) ==> q <= m.len(),
    decreases m.len() - n,
{
    lemma_keys_below(m, n);
    assert forall|q: u64| crate::ipc::lowest_key(m, 0, q) implies q <= m.len() by {
        lemma_keys_below(m, q as int);
    }
    if m.dom().contains(n as u64) {
        assert forall|x: u64| x < n + 1 implies m.dom().contains(x) by {}
        lemma_keys_below(m, n + 1);
        lemma_lowest_free(m, n + 1);
    } else {
        assert(crate::ipc::lowest_key(m, 0, n as u64));
    }
}

/// The result of the call that makes a pipe holds the descriptor to read from in its low half and
/// the one to write to in its high half, and no other descriptor of the running task changes.
#[verifier::spinoff_prover]
pub proof fn law_pipe_call_returns_ends(kern: Kernel, fds: u64, fd: u64)
    requires
        kern.wf(),
        kern@.sys_pipe(fds).r is Ok,
    ensures
        ({
            let k = kern@;
            let v = k.sys_pipe(fds).r->Ok_0;
            let rd = (v % 0x1_0000_0000) as u64;
            let wr = (v / 0x1_0000_0000) as u64;
            let before = k.cur_state().files;
            let after = k.sys_pipe(fds).k.cur_state().files;
            &&& crate::kernel_struct::two_lowest(before, rd, wr)
            &&& after.dom().contains(rd) && (after[rd] matches FRef::Pipe(p) && p.dir == PipeDir::Rd)
            &&& after.dom().contains(wr) && (after[wr] matches FRef::Pipe(p) && p.dir == PipeDir::Wr)
            &&& after[rd]->Pipe_0.data == after[wr]->Pipe_0.data
            &&& fd != rd && fd != wr ==> (after.dom().contains(fd) <==> before.dom().contains(fd)) && after[fd] == before[fd]
        }),
{
    let k0 = kern@;
    crate::syscalls::law_reaching_keeps(k0, fds, 8, true);
    let k = k0.reached(fds, 8, true).1;
    let t = k0.cur()->0;
    assert(k0.cpus[0] matches Some(x) ==> x < k0.tasks.arena.len());
    assert(k.tasks.arena[t as int] == (TaskState { space: k.tasks.arena[t as int].space, ..k0.tasks.arena[t as int] }));
    let m = k0.cur_state().files;
    assert(k.cur_state().files == m);
    let files = kern.tasks.arena@[t as int].files;
    assert(kern.tasks.arena@[t as int].wf());
    files.lemma_key_seq();
    assert(m.dom() =~= files@.dom());
    lemma_lowest_free(m, 0);
    let rd = crate::syscalls::lowest_fd(m);
    assert(crate::ipc::lowest_key(m, 0, rd));
    let mid = m.insert(rd, FRef::Pipe(PipeNode { data: k.heap.pipes.len() as usize, dir: PipeDir::Rd }));
    lemma_lowest_free(mid, 0);
    let wr = crate::syscalls::lowest_fd(mid);
    assert(crate::ipc::lowest_key(mid, 0, wr));
    assert(mid.dom() =~= m.dom().insert(rd));
    assert(wr != rd);
    if wr < rd {
        assert(m.dom().contains(wr));
    }
    assert forall|q: u64| rd < q < wr implies #[trigger] m.dom().contains(q) by {
        assert(mid.dom().contains(q));
    }
    assert((rd | (wr << 32)) % 0x1_0000_0000 == rd && (rd | (wr << 32)) / 0x1_0000_0000 == wr) by (bit_vector)
        requires
            rd < 0x1_0000_0000,
            wr < 0x1_0000_0000,
    ;
}

/// Where paths lead depends only on which inodes there are, on their kinds and on their entries.
proof fn lemma_same_walk(a: Map<u64, InodeView>, b: Map<u64, InodeView>, cur: u64, comps: Seq<Seq<char>>)
    requires
        a.dom() == b.dom(),
        forall|i: u64| #[trigger] a.dom().contains(i) ==> a[i].kind == b[i].kind && a[i].children == b[i].children,
    ensures
        crate::fs::walk(a, cur, comps) == crate::fs::walk(b, cur, comps),
    decreases comps.len(),
{
    if a.dom().contains(cur) && comps.len() > 1 && a[cur].children.dom().contains(comps[0]) {
        lemma_same_walk(a, b, a[cur].children[comps[0]], comps.drop_first());
    }
}

proof fn lemma_same_lookup(a: FsView, b: FsView, path: Seq<char>)
    requires
        a.inodes.dom() == b.inodes.dom(),
        forall|i: u64| #[trigger]
            a.inodes.dom().contains(i) ==> a.inodes[i].kind == b.inodes[i].kind && a.inodes[i].children == b.inodes[i].children,
    ensures
        a.lookup(path) == b.lookup(path),
{
    lemma_same_walk(a.inodes, b.inodes, 0, crate::text::components(path));
}

/// The descriptors of the running task are finitely many.
proof fn lemma_files_finite(kern: Kernel)
    requires
        kern.wf(),
        kern@.cur() is Some,
    ensures
        kern@.cur_state().files.dom().finite(),
        kern@.cur_state().files.len() <= u64::MAX,
        kern@.cur_state().valid(kern@.heap),
{
    let t = kern@.cur()->0;
    assert(kern@.cpus[0] matches Some(x) ==> x < kern@.tasks.arena.len());
    let files = kern.tasks.arena@[t as int].files;
    assert(kern.tasks.arena@[t as int].wf());
    files.lemma_key_seq();
    assert(kern@.cur_state().files.dom() =~= files@.dom());
    assert(kern@.tasks.arena[t as int].valid(kern@.heap));
}

/// A file that was opened is the one to which the path leads. Its descriptor is the lowest that was
/// free, stands at the start of the file, and allows what was asked for; no other descriptor and no
/// other open file changes. A file that was missing is new and empty; one that was to be emptied is
/// empty; otherwise the file system stays as it was.
#[verifier::spinoff_prover]
pub proof fn law_open_stands_at_start(kern: Kernel, path: Seq<char>, flags: u64, other: u64, d: int)
    requires
        kern.wf(),
        kern@.cur() is Some,
        kern@.fs.missing(path) ==> kern@.fs.next_ino < u64::MAX,
        kern@.open_at(path, flags).r is Ok,
        0 <= d < kern@.heap.descs.len(),
        kern@.heap.descs.len() < usize::MAX,
    ensures
        ({
            let k = kern@;
            let fd = k.open_at(path, flags).r->Ok_0;
            let k1 = k.open_at(path, flags).k;
            let before = k.cur_state().files;
            let after = k1.cur_state().files;
            let f = after[fd]->File_0;
            let s = f.state(k1.heap);
            let wants_write = flags % 4 == 1 || flags % 4 == 2;
            let n = k1.fs.inodes[f.ino];
            &&& crate::ipc::lowest_key(before, 0, fd)
            &&& after.dom().contains(fd) && after[fd] is File
            &&& other != fd ==> (after.dom().contains(other) <==> before.dom().contains(other)) && after[other] == before[other]
            &&& s.off == 0 && s.opt.rd == (flags % 4 == 0 || flags % 4 == 2) && s.opt.wr == wants_write
            &&& s.opt.ap == (flags / crate::consts::O_APPEND % 2 == 1)
            &&& f.cloexec == (flags / crate::consts::O_CLOEXEC % 2 == 1)
            &&& f.desc != d && k1.heap.descs[d] == k.heap.descs[d]
            &&& k1.fs.lookup(path) matches Ok(l) && l.ino == f.ino
            &&& k.fs.missing(path) ==> flags / 0o100 % 2 == 1 && n.kind == InodeType::File && n.size == 0
            &&& flags / 0o1000 % 2 == 1 && wants_write ==> n.size == 0
            &&& !k.fs.missing(path) && !(flags / 0o1000 % 2 == 1 && wants_write) ==> k1.fs == k.fs
        }),
{
    let k = kern@;
    let fd = k.open_at(path, flags).r->Ok_0;
    let k1 = k.open_at(path, flags).k;
    assert(k.cpus[0] matches Some(x) ==> x < k.tasks.arena.len());
    lemma_files_finite(kern);
    lemma_lowest_free(k.cur_state().files, 0);
    assert(crate::ipc::lowest_key(k.cur_state().files, 0, crate::syscalls::lowest_fd(k.cur_state().files)));
    let l = k.fs.lookup(path)->Ok_0;
    let mid = if k.fs.missing(path) {
        crate::fs::law_create_then_lookup(k.fs, path, InodeType::File);
        k.fs.created(l.parent_ino, l.name, InodeType::File)
    } else {
        k.fs
    };
    let ino = mid.lookup(path)->Ok_0.ino;
    if crate::syscalls::flag(flags, 0o1000) && (flags % 4 == 1 || flags % 4 == 2) {
        assert(mid.truncated(ino, 0).inodes.dom() =~= mid.inodes.dom());
        lemma_same_lookup(mid.truncated(ino, 0), mid, path);
    }
}

/// Opening what is missing without asking for it to be made is refused, and so is making what is
/// there already when that was excluded; nothing changes.
pub proof fn law_open_refuses(k: KernelState, path: Seq<char>, flags: u64)
    requires
        k.fs.lookup(path) is Ok,
    ensures
        k.fs.missing(path) && flags / 0o100 % 2 == 0 ==> k.open_at(path, flags) == k.fails("enoent"),
        !k.fs.missing(path) && flags / 0o100 % 2 == 1 && flags / 0o200 % 2 == 1 ==> k.open_at(path, flags) == k.fails("eexist"),
{
}

/// A directory that was made is found under its path, and is empty; it cannot be made again.
pub proof fn law_mkdir_then_found(k: KernelState, path: Seq<char>)
    requires
        k.fs.wf(),
        k.fs.missing(path),
        k.fs.next_ino < u64::MAX,
    ensures
        ({
            let k1 = k.mkdir_at(path).k;
            let ino = k1.fs.lookup(path)->Ok_0.ino;
            &&& k.mkdir_at(path).r == Ok::<u64, &'static str>(0)
            &&& k1.fs.lookup(path) is Ok && !k1.fs.missing(path)
            &&& !k.fs.inodes.dom().contains(ino)
            &&& k1.fs.inodes.dom().contains(ino) && k1.fs.inodes[ino].kind == InodeType::Directory
            &&& k1.fs.inodes[ino].children == Map::<Seq<char>, u64>::empty()
            &&& k1.mkdir_at(path) == k1.fails("eexist")
            &&& k1 == (KernelState { fs: k1.fs, ..k })
        }),
{
    crate::fs::law_create_then_lookup(k.fs, path, InodeType::Directory);
    crate::fs::lemma_missing_is_free(k.fs, path);
}

/// A file or a directory that was deleted is missing under its path, its inode is gone, and it
/// cannot be deleted again.
pub proof fn law_unlink_then_missing(k: KernelState, path: Seq<char>)
    requires
        k.fs.wf(),
        k.fs.lookup(path) is Ok,
        !k.fs.missing(path),
        crate::text::components(path).len() > 0,
    ensures
        ({
            let k1 = k.unlink_at(path).k;
            &&& k.unlink_at(path).r == Ok::<u64, &'static str>(0)
            &&& k1.fs.missing(path)
            &&& !k1.fs.inodes.dom().contains(k.fs.lookup(path)->Ok_0.ino)
            &&& k1.unlink_at(path) == k1.fails("enoent")
            &&& k1 == (KernelState { fs: k1.fs, ..k })
        }),
{
    crate::fs::law_unlink_then_lookup(k.fs, path);
}

/// A descriptor that was closed is no longer open: reading, writing and closing are refused. The
/// other descriptors stay, and a pipe of which an end was closed has one end less.
#[verifier::spinoff_prover]
pub proof fn law_close_ends_descriptor(k: KernelState, fd: u64, other: u64, buf: u64, count: u64)
    requires
        k.sound(),
        k.cur() is Some,
        k.cur_state().files.dom().contains(fd),
        k.can_close(fd),
        buf > 0,
        count > 0,
    ensures
        ({
            let k1 = k.sys_close(fd).k;
            let before = k.cur_state().files;
            let after = k1.cur_state().files;
            &&& k.sys_close(fd).r == Ok::<u64, &'static str>(0)
            &&& k1.sys_close(fd) == k1.fails("ebadf")
            &&& k1.reached(buf, count, true).0 ==> k1.sys_read(fd, buf, count).r == Err::<u64, &'static str>("ebadf")
            &&& k1.reached(buf, count, false).0 ==> k1.sys_write(fd, buf, count).r == Err::<u64, &'static str>("ebadf")
            &&& other != fd ==> (after.dom().contains(other) <==> before.dom().contains(other)) && after[other] == before[other]
            &&& before[fd] matches FRef::Pipe(p) ==> p.pipe(k1.heap).ends == p.pipe(k.heap).ends - 1 && p.pipe(k1.heap).buf
                == p.pipe(k.heap).buf
            &&& !(before[fd] is Pipe) ==> k1.heap == k.heap
        }),
{
    let t = k.cur()->0 as int;
    assert(k.cpus[0] matches Some(x) ==> x < k.tasks.arena.len());
    assert(k.tasks.arena[t].valid(k.heap));
    assert(k.cur_state().files[fd].refers(k.heap));
    let k1 = k.sys_close(fd).k;
    assert(!k1.cur_state().files.dom().contains(fd));
    if crate::syscalls::user_range(buf, count) {
        let first = crate::address_space::page_of(buf);
        let last = crate::address_space::page_of((buf + count - 1) as u64);
        let n = ((last - first) / PAGE_SZ as int + 1) as nat;
        crate::syscalls::lemma_pages_keep(k1, first as int, n, true);
        crate::syscalls::lemma_pages_keep(k1, first as int, n, false);
        let ka = k1.reached(buf, count, true).1;
        let kb = k1.reached(buf, count, false).1;
        assert(ka.tasks.arena[t] == (TaskState { space: ka.tasks.arena[t].space, ..k1.tasks.arena[t] }));
        assert(kb.tasks.arena[t] == (TaskState { space: kb.tasks.arena[t].space, ..k1.tasks.arena[t] }));
    }
}

/// A duplicate takes the lowest free descriptor, or the one that was asked for, and refers to the
/// same open file or pipe as the descriptor that was duplicated, which stays. No other descriptor
/// changes.
#[verifier::spinoff_prover]
pub proof fn law_duplicates_refer_to_the_same(kern: Kernel, fd: u64, new: u64, other: u64)
    requires
        kern.wf(),
        kern@.cur() is Some,
        kern@.cur_state().files.dom().contains(fd),
        fd < crate::syscalls::FD_LIMIT,
        new < crate::syscalls::FD_LIMIT,
        kern@.can_close(new),
    ensures
        ({
            let k = kern@;
            let before = k.cur_state().files;
            let low = k.sys_dup(fd).r->Ok_0;
            let a = k.sys_dup(fd).k.cur_state().files;
            let b = k.sys_dup2(fd, new).k.cur_state().files;
            &&& k.sys_dup(fd).r is Ok && crate::ipc::lowest_key(before, 0, low)
            &&& a.dom().contains(low) && same_object(a[low], before[fd]) && a[fd] == before[fd]
            &&& other != low ==> (a.dom().contains(other) <==> before.dom().contains(other)) && a[other] == before[other]
            &&& k.sys_dup2(fd, new).r == Ok::<u64, &'static str>(new)
            &&& b.dom().contains(new) && same_object(b[new], before[fd]) && b.dom().contains(fd) && b[fd] == before[fd]
            &&& other != new ==> (b.dom().contains(other) <==> before.dom().contains(other)) && b[other] == before[other]
            &&& fd != new && before.dom().contains(new) ==> k.sys_dup2(fd, new).k.heap == k.sys_close(new).k.heap
        }),
{
    let k = kern@;
    assert(k.cpus[0] matches Some(x) ==> x < k.tasks.arena.len());
    lemma_files_finite(kern);
    lemma_lowest_free(k.cur_state().files, 0);
    assert(crate::ipc::lowest_key(k.cur_state().files, 0, crate::syscalls::lowest_fd(k.cur_state().files)));
}

/// Two descriptors refer to the same open file, the same end of a pipe, or the same sets of
/// descriptors.
pub open spec fn same_object(a: FRef, b: FRef) -> bool {
    match (a, b) {
        (FRef::File(f), FRef::File(g)) => f.ino == g.ino && f.desc == g.desc && f.data == g.data,
        (FRef::Pipe(p), FRef::Pipe(q)) => p.data == q.data && p.dir == q.dir,
        (FRef::Ep(e), FRef::Ep(f)) => e.sets == f.sets && e.events == f.events,
        _ => false,
    }
}

// ---------------------------------------------------------------------------------------------
// Processes and signals
// ---------------------------------------------------------------------------------------------

/// A signal that was sent to a process waits there, behind those that wait already; no other task
/// gets it.
pub proof fn law_kill_delivers(k: KernelState, pid: u64, sig: u64)
    requires
        k.tasks.linked(),
        crate::utils::signed(pid) > 0,
        k.sys_kill(pid, sig).r is Ok,
    ensures
        ({
            let t = k.tasks.map[pid];
            let k1 = k.sys_kill(pid, sig).k;
            &&& k.tasks.map.dom().contains(pid)
            &&& k1.tasks.arena[t as int].sig_queue == k.tasks.arena[t as int].sig_queue.push((sig as i32, (-1int) as i64))
            &&& forall|i: int| 0 <= i < k.tasks.arena.len() && i != t ==> k1.tasks.arena[i] == k.tasks.arena[i]
        }),
{
}

/// A kill of the signed number `p` is meant for the task under the number `id`: 0 means the running
/// task's group, -1 all that have not ended but the first process, a positive number the task with
/// it, and another negative number the group of the opposite number.
pub open spec fn meant(k: KernelState, p: int, id: u64) -> bool {
    let a = k.tasks.arena[k.tasks.map[id] as int];
    k.tasks.map.dom().contains(id) && (if p == 0 {
        k.cur() is Some && a.pgid == k.cur_state().pgid
    } else if p == -1 {
        id > 1 && a.status is None
    } else if p > 0 {
        id == p
    } else {
        a.pgid == (-p) as i32
    })
}

/// How many signals wait at the first `n` tasks.
pub open spec fn waiting(arena: Seq<TaskState>, n: int) -> int
    decreases n,
{
    if n <= 0 {
        0
    } else {
        waiting(arena, n - 1) + arena[n - 1].sig_queue.len()
    }
}

proof fn lemma_waiting_update(arena: Seq<TaskState>, n: int, i: int, t: TaskState)
    requires
        0 <= i < arena.len(),
        0 <= n <= arena.len(),
    ensures
        waiting(arena.update(i, t), n) == waiting(arena, n) + (if i < n {
            t.sig_queue.len() - arena[i].sig_queue.len()
        } else {
            0
        }),
    decreases n,
{
    if n > 0 {
        lemma_waiting_update(arena, n - 1, i, t);
    }
}

/// The queue `after` is the queue `before` with one signal or more, all `e`, put behind.
pub open spec fn queued_behind(before: Seq<(i32, i64)>, after: Seq<(i32, i64)>, e: (i32, i64)) -> bool {
    &&& before.len() < after.len()
    &&& after.take(before.len() as int) == before
    &&& forall|j: int| before.len() <= j < after.len() ==> #[trigger] after[j] == e
}

proof fn lemma_signalled(s: TableState, g: Seq<TaskRef>, signo: i32, who: i64, n: int)
    requires
        0 <= n <= g.len(),
        s.arena.len() <= usize::MAX,
        forall|j: int| 0 <= j < g.len() ==> (#[trigger] g[j]) < s.arena.len(),
    ensures
        ({
            let after = s.signalled(g, signo, who, n);
            &&& after == (TableState { arena: after.arena, ..s })
            &&& after.arena.len() == s.arena.len()
            &&& waiting(after.arena, s.arena.len() as int) == waiting(s.arena, s.arena.len() as int) + n
            &&& forall|i: int|
                0 <= i < s.arena.len() ==> (#[trigger] after.arena[i]) == (TaskState {
                    sig_queue: after.arena[i].sig_queue,
                    ev: after.arena[i].ev,
                    ..s.arena[i]
                }) && (if g.take(n).contains(i as usize) {
                    queued_behind(s.arena[i].sig_queue, after.arena[i].sig_queue, (signo, who))
                } else {
                    after.arena[i] == s.arena[i]
                })
        }),
    decreases n,
{
    if n > 0 {
        lemma_signalled(s, g, signo, who, n - 1);
        let before = s.signalled(g, signo, who, n - 1);
        let after = s.signalled(g, signo, who, n);
        let t = g[n - 1];
        lemma_waiting_update(before.arena, s.arena.len() as int, t as int, before.arena[t as int].signalled(signo, who));
        assert(g.take(n) =~= g.take(n - 1).push(t));
        assert forall|i: int| 0 <= i < s.arena.len() implies (#[trigger] after.arena[i]) == (TaskState {
            sig_queue: after.arena[i].sig_queue,
            ev: after.arena[i].ev,
            ..s.arena[i]
        }) && (if g.take(n).contains(i as usize) {
            queued_behind(s.arena[i].sig_queue, after.arena[i].sig_queue, (signo, who))
        } else {
            after.arena[i] == s.arena[i]
        }) by {
            let m = s.arena[i].sig_queue.len() as int;
            assert(before.arena[i].sig_queue.take(m) =~= s.arena[i].sig_queue);
            if i == t {
                assert(g.take(n)[n - 1] == i);
                assert(after.arena[i].sig_queue.take(m) =~= s.arena[i].sig_queue);
            } else if g.take(n).contains(i as usize) {
                let h = g.take(n);
                let j = choose|j: int| 0 <= j < h.len() && h[j] == i as usize;
                assert(g.take(n - 1)[j] == i as usize);
            } else {
                if g.take(n - 1).contains(i as usize) {
                    let h = g.take(n - 1);
                    let j = choose|j: int| 0 <= j < h.len() && h[j] == i as usize;
                    assert(g.take(n)[j] == i as usize);
                }
            }
        }
    } else {
        assert(g.take(0) =~= Seq::<TaskRef>::empty());
    }
}

/// Whom a kill of a group or of all addresses, as a list.
proof fn lemma_meant(kern: Kernel, p: int, g: Seq<TaskRef>)
    requires
        kern.wf(),
        p <= 0,
        g == (if p == 0 {
            kern@.tasks.group(kern@.cur_state().pgid)
        } else if p == -1 {
            kern@.tasks.others()
        } else {
            kern@.tasks.group((-p) as i32)
        }),
        p == 0 ==> kern@.cur() is Some,
    ensures
        g.len() <= u64::MAX,
        forall|j: int| 0 <= j < g.len() ==> (#[trigger] g[j]) < kern@.tasks.arena.len(),
        forall|id: u64| #[trigger] meant(kern@, p, id) ==> g.contains(kern@.tasks.map[id]),
        forall|t: TaskRef| g.contains(t) ==> exists|id: u64| #[trigger] meant(kern@, p, id) && kern@.tasks.map[id] == t,
{
    let k = kern@;
    let s = k.tasks;
    let keys = crate::seqs::sorted_keys(s.map);
    kern.tasks.map.lemma_key_seq();
    assert(crate::seqs::lists_keys(kern.tasks.map.key_seq(), s.map));
    crate::seqs::lemma_sorted_keys(kern.tasks.map.key_seq(), s.map);
    if p == -1 {
        let live = keys.filter(crate::task::ended(s, false));
        let ids = live.filter(crate::syscalls::not_first());
        crate::seqs::lemma_filter_ends(keys, crate::task::ended(s, false));
        crate::seqs::lemma_filter_ends(live, crate::syscalls::not_first());
        crate::seqs::lemma_filter_contains(keys, crate::task::ended(s, false));
        crate::seqs::lemma_filter_contains(live, crate::syscalls::not_first());
        assert forall|j: int| 0 <= j < g.len() implies (#[trigger] g[j]) < s.arena.len() && meant(k, p, ids[j]) && g[j]
            == s.map[ids[j]] by {
            assert(ids.contains(ids[j]));
            assert(live.contains(ids[j]));
            assert(keys.contains(ids[j]));
        }
        assert forall|id: u64| #[trigger] meant(k, p, id) implies g.contains(s.map[id]) by {
            assert(keys.contains(id));
            assert(live.contains(id));
            assert(ids.contains(id));
            let j = choose|j: int| 0 <= j < ids.len() && ids[j] == id;
            assert(g[j] == s.map[id]);
        }
        assert forall|t: TaskRef| g.contains(t) implies exists|id: u64| #[trigger] meant(k, p, id) && s.map[id] == t by {
            let j = choose|j: int| 0 <= j < g.len() && g[j] == t;
            assert(meant(k, p, ids[j]) && s.map[ids[j]] == t);
        }
    } else {
        let pgid = if p == 0 {
            k.cur_state().pgid
        } else {
            (-p) as i32
        };
        let all = s.members();
        let q = crate::task::grouped(s.arena, pgid);
        crate::seqs::lemma_filter_ends(all, q);
        crate::seqs::lemma_filter_contains(all, q);
        assert forall|t: TaskRef| #[trigger] g.contains(t) implies t < s.arena.len() && exists|id: u64| #[trigger]
            meant(k, p, id) && s.map[id] == t by {
            assert(all.contains(t) && q(t));
            let j = choose|j: int| 0 <= j < all.len() && all[j] == t;
            assert(keys.contains(keys[j]));
            assert(meant(k, p, keys[j]) && s.map[keys[j]] == t);
        }
        assert forall|j: int| 0 <= j < g.len() implies (#[trigger] g[j]) < s.arena.len() by {
            assert(g.contains(g[j]));
        }
        assert forall|id: u64| #[trigger] meant(k, p, id) implies g.contains(s.map[id]) by {
            assert(keys.contains(id));
            let j = choose|j: int| 0 <= j < keys.len() && keys[j] == id;
            assert(all[j] == s.map[id]);
            assert(all.contains(s.map[id]));
            assert(q(s.map[id]));
        }
    }
}

/// When a signal is sent to a group or to all, it is put at the end of the queue of every task that
/// is meant, no other task changes, and the result is the number of signals that were put there.
#[verifier::spinoff_prover]
pub proof fn law_kill_reaches_group(kern: Kernel, pid: u64, sig: u64)
    requires
        kern.wf(),
        crate::utils::signed(pid) <= 0,
        kern@.cur() is Some,
        kern@.sys_kill(pid, sig).r is Ok,
    ensures
        ({
            let k = kern@;
            let k1 = k.sys_kill(pid, sig).k;
            let n = k.tasks.arena.len() as int;
            let p = crate::utils::signed(pid);
            &&& forall|id: u64| #[trigger]
                meant(k, p, id) ==> queued_behind(
                    k.tasks.arena[k.tasks.map[id] as int].sig_queue,
                    k1.tasks.arena[k.tasks.map[id] as int].sig_queue,
                    (sig as i32, -1i64),
                )
            &&& forall|i: int|
                0 <= i < n && (forall|id: u64| #[trigger] meant(k, p, id) ==> k.tasks.map[id] != i) ==> (
                #[trigger] k1.tasks.arena[i]) == k.tasks.arena[i]
            &&& k.sys_kill(pid, sig).r->Ok_0 == waiting(k1.tasks.arena, n) - waiting(k.tasks.arena, n)
            &&& k1.tasks.map == k.tasks.map
            &&& k1 == (KernelState { tasks: k1.tasks, ..k })
        }),
{
    let k = kern@;
    let s = k.tasks;
    let p = crate::utils::signed(pid);
    let g = if p == 0 {
        s.group(k.cur_state().pgid)
    } else if p == -1 {
        s.others()
    } else {
        s.group((-p) as i32)
    };
    lemma_meant(kern, p, g);
    assert(kern.tasks.arena.len() == s.arena.len());
    lemma_signalled(s, g, sig as i32, -1i64, g.len() as int);
    assert(g.take(g.len() as int) =~= g);
    let k1 = k.sys_kill(pid, sig).k;
    assert(k1.tasks == s.signalled(g, sig as i32, -1i64, g.len() as int));
    assert forall|id: u64| #[trigger] meant(k, p, id) implies queued_behind(
        s.arena[s.map[id] as int].sig_queue,
        k1.tasks.arena[s.map[id] as int].sig_queue,
        (sig as i32, -1i64),
    ) by {
        assert(g.contains(s.map[id]));
    }
    assert forall|i: int|
        0 <= i < s.arena.len() && (forall|id: u64| #[trigger] meant(k, p, id) ==> s.map[id] != i) implies (
    #[trigger] k1.tasks.arena[i]) == s.arena[i] by {
        if g.contains(i as usize) {
            let id = choose|id: u64| #[trigger] meant(k, p, id) && s.map[id] == i as usize;
        }
    }
}

/// Whether a signal can be sent: only where there is such a signal, never to end or stop the first
/// process, and not where nobody is meant. What is refused changes nothing.
pub proof fn law_kill_answers(kern: Kernel, pid: u64, sig: u64)
    requires
        kern.wf(),
        kern@.cur() is Some,
    ensures
        ({
            let k = kern@;
            let p = crate::utils::signed(pid);
            let spared = (sig == SIGKILL || sig == SIGSTOP) && -1 <= p <= 1;
            let nobody = forall|id: u64| !#[trigger] meant(k, p, id);
            let ended = p > 0 && sig != 0 && k.tasks.arena[k.tasks.map[pid] as int].status is Some;
            &&& k.sys_kill(pid, sig).r is Ok <==> sig <= crate::consts::NSIG && !spared && (p == 0 || !nobody && !ended)
            &&& k.sys_kill(pid, sig).r is Err ==> k.sys_kill(pid, sig).k == k
            &&& p == 1 && (sig == SIGKILL || sig == SIGSTOP) ==> k.sys_kill(pid, sig).r == Err::<u64, &'static str>("eperm")
        }),
{
    let k = kern@;
    let p = crate::utils::signed(pid);
    if p < 0 {
        let g = if p == -1 {
            k.tasks.others()
        } else {
            k.tasks.group((-p) as i32)
        };
        lemma_meant(kern, p, g);
        if g.len() > 0 {
            assert(g.contains(g[0]));
        } else {
            assert forall|id: u64| !#[trigger] meant(k, p, id) by {
                if meant(k, p, id) {
                    assert(g.contains(k.tasks.map[id]));
                }
            }
        }
    } else if p > 0 {
        assert(k.tasks.map.dom().contains(pid) ==> meant(k, p, pid));
    }
}

/// The signals that end and stop a task never become blocked, whatever is asked for.
pub proof fn law_never_blocked(k: KernelState, how: u64, set: u64, oldset: u64)
    requires
        k.sound(),
        k.cur() is Some,
        !crate::utils::on(k.cur_state().sig_mask, SIGKILL),
        !crate::utils::on(k.cur_state().sig_mask, SIGSTOP),
    ensures
        !crate::utils::on(k.sys_sigprocmask(how, set, oldset).k.cur_state().sig_mask, SIGKILL),
        !crate::utils::on(k.sys_sigprocmask(how, set, oldset).k.cur_state().sig_mask, SIGSTOP),
{
    let k1 = k.reached_opt(set, 8, false).1;
    crate::syscalls::law_reaching_keeps(k, set, 8, false);
    let t = k.cur()->0 as int;
    assert(k1.cur_state().sig_mask == k.cur_state().sig_mask) by {
        assert(k1.tasks.arena[t] == (TaskState { space: k1.tasks.arena[t].space, ..k.tasks.arena[t] }));
    }
    if oldset != 0 && crate::syscalls::user_range(oldset, 8) {
        let first = crate::address_space::page_of(oldset);
        let last = crate::address_space::page_of((oldset + 8 - 1) as u64);
        crate::syscalls::lemma_pages_keep(k1, first as int, ((last - first) / PAGE_SZ as int + 1) as nat, true);
    }
    let k2 = k1.reached_opt(oldset, 8, true).1;
    assert(k2.cur() == k.cur());
    assert(k2.cur_state().sig_mask == k.cur_state().sig_mask) by {
        assert(k2.tasks.arena[t] == (TaskState { space: k2.tasks.arena[t].space, ..k1.tasks.arena[t] }));
    }
    let m = k2.cur_state().sig_mask;
    let u = (1u64 << SIGKILL) | (1u64 << SIGSTOP);
    crate::utils::lemma_on(m | set, u, 0, SIGKILL);
    crate::utils::lemma_on(m | set, u, 0, SIGSTOP);
    crate::utils::lemma_on(set, u, 0, SIGKILL);
    crate::utils::lemma_on(set, u, 0, SIGSTOP);
    crate::utils::lemma_on(m, set, 0, SIGKILL);
    crate::utils::lemma_on(m, set, 0, SIGSTOP);
    assert(((1u64 << 9u32) | (1u64 << 19u32)) & (1u64 << 9u32) != 0 && ((1u64 << 9u32) | (1u64 << 19u32)) & (1u64 << 19u32) != 0)
        by (bit_vector);
}

/// A task that has started another program stands at its entry with a stack of its own: the stack
/// pointer is where pushing the arguments and the environment below the top of the user's stack
/// leads, and all other registers are zero. Where all of that fits, it is in the user's stack.
pub proof fn law_exec_starts_program(k: KernelState, t: TaskRef, path: Seq<char>, init: ProcInit)
    requires
        t < k.tasks.arena.len(),
        init.auxv@.len() == 0,
        crate::proc_init::stack_fits(init.args@, init.envs@, 0, (USR_STK_OFF + USR_STK_SZ) as u64),
    ensures
        ({
            let top = (USR_STK_OFF + USR_STK_SZ) as u64;
            let sp = crate::proc_init::stack_pointer(init.args@, init.envs@, 0, top);
            let a = k.execed(t, path, sp as u64).tasks.arena[t as int];
            let c = a.thd_ctx->0;
            let need = crate::proc_init::name_bytes(init.args@) + init.size();
            &&& a.exec_path == path
            &&& a.thd_ctx is Some
            &&& c.regs.ip == 0x0040_0000
            &&& c.regs.r[N_REGS - 1] == sp
            &&& forall|i: int| 0 <= i < N_REGS - 1 ==> #[trigger] c.regs.r[i] == 0
            &&& need + 15 <= USR_STK_SZ ==> USR_STK_OFF <= c.regs.r[N_REGS - 1] && c.regs.r[N_REGS - 1] + need <= top
        }),
{
    let top = (USR_STK_OFF + USR_STK_SZ) as u64;
    let need = crate::proc_init::name_bytes(init.args@) + init.size();
    if need + 15 <= USR_STK_SZ {
        crate::proc_init::law_push_is_tight(init, top);
    }
    let x = crate::proc_init::below_all_texts(init.args@, init.envs@, top);
    assert(0 <= x < 0x1_0000_0000_0000_0000);
}

/// A task that starts another program stays the same process: it keeps its number, its group, its
/// parent and children, its directory, its blocked signals and its descriptors, but for those of
/// files that are marked to be closed. No other task is concerned.
pub proof fn law_exec_keeps_process(k: KernelState, t: TaskRef, path: Seq<char>, sp: u64, fd: u64, i: int)
    requires
        t < k.tasks.arena.len(),
        0 <= i < k.tasks.arena.len(),
    ensures
        ({
            let a = k.tasks.arena[t as int];
            let k1 = k.execed(t, path, sp);
            let b = k1.tasks.arena[t as int];
            let marked = a.files.dom().contains(fd) && (a.files[fd] matches FRef::File(f) && f.cloexec);
            &&& b.id == a.id && b.pid == a.pid && b.pgid == a.pgid && b.parent == a.parent && b.subtasks == a.subtasks
            &&& b.cwd == a.cwd && b.sig_mask == a.sig_mask && b.sig_queue == a.sig_queue && b.status == a.status
            &&& b.files.dom().contains(fd) <==> a.files.dom().contains(fd) && !marked
            &&& b.files.dom().contains(fd) ==> b.files[fd] == a.files[fd]
            &&& i != t ==> k1.tasks.arena[i] == k.tasks.arena[i]
            &&& k1.tasks.map == k.tasks.map && k1.heap == k.heap && k1.fs == k.fs && k1.pool == k.pool
        }),
{
}

/// When a process has exited, its parent finds it among its children that have ended.
pub proof fn law_exit_is_seen(k: KernelState, status: u64, p: TaskRef, i: int)
    requires
        k.tasks.linked(),
        k.cur() matches Some(t) && t < k.tasks.arena.len() && k.tasks.arena[t as int].parent == Some(p) && p != t,
        0 <= i < k.tasks.arena[p as int].subtasks.len(),
        k.tasks.arena[p as int].subtasks[i] == k.cur()->0,
    ensures
        ({
            let s = k.sys_exit(status).k.tasks;
            i < s.arena[p as int].subtasks.len() && s.awaited(p, (-1int) as i64, i)
        }),
{
    let t = k.cur()->0;
    let a = k.cur_state();
    assert(k.tasks.arena[t as int].parent matches Some(q) ==> q < k.tasks.arena.len());
    let s1 = k.tasks.exited(t, status);
    let s2 = s1.with(p, s1.arena[p as int].signalled(crate::consts::SIGCHLD as i32, crate::utils::signed(a.id) as i64));
    assert(s2.arena[t as int].status is Some);
    assert(s2.arena[p as int].subtasks == k.tasks.arena[p as int].subtasks);
    if s2.map.dom().contains(1) {
        let r = s2.map[1];
        assert(k.tasks.map.dom().contains(1));
        assert forall|j: int| 0 <= j < a.subtasks.len() implies (#[trigger] a.subtasks[j]) < s2.arena.len() by {
            assert(k.tasks.arena[t as int].subtasks[j] < k.tasks.arena.len());
        }
        crate::task::lemma_adopted_keeps(s2, a.subtasks, r, a.subtasks.len() as int);
        let s3 = s2.adopted(a.subtasks, r, a.subtasks.len() as int);
        let sub = s2.arena[p as int].subtasks;
        assert(s3.arena[p as int].subtasks.take(sub.len() as int)[i] == sub[i]);
        assert(s3.arena[t as int].status == s2.arena[t as int].status);
    }
}

/// What a task leaves when it exits: it is known under its number still, has ended with the status
/// that it gave, and has no descriptors; its parent has been sent the signal for that with the
/// task's number, behind those that wait already, and the first process has got its children.
pub proof fn law_exit_leaves_behind(k: KernelState, status: u64, p: TaskRef, j: int)
    requires
        k.tasks.linked(),
        k.cur() matches Some(t) && t < k.tasks.arena.len() && k.tasks.arena[t as int].parent == Some(p) && p != t,
        k.tasks.map.dom().contains(1),
        k.tasks.map[1] != k.cur()->0,
        0 <= j < k.cur_state().subtasks.len(),
        k.cur_state().subtasks[j] != k.cur()->0,
        k.cur_state().id <= i64::MAX,
    ensures
        ({
            let t = k.cur()->0 as int;
            let k1 = k.sys_exit(status).k;
            let b = k1.tasks.arena[t];
            let q = k1.tasks.arena[p as int];
            &&& k.sys_exit(status).r == Ok::<u64, &'static str>(0)
            &&& k1.tasks.map == k.tasks.map
            &&& b.exit_code == status && b.status == Some((status % 256) as i32)
            &&& b.id == k.cur_state().id && b.files == Map::<u64, FRef>::empty()
            &&& q.sig_queue == k.tasks.arena[p as int].sig_queue.push(
                (crate::consts::SIGCHLD as i32, k.cur_state().id as i64),
            )
            &&& k1.tasks.arena[k.cur_state().subtasks[j] as int].parent == Some(k.tasks.map[1])
            &&& k1.tasks.arena[k.tasks.map[1] as int].subtasks == k.tasks.arena[k.tasks.map[1] as int].subtasks
                + k.cur_state().subtasks
        }),
{
    let t = k.cur()->0;
    let a = k.cur_state();
    assert(k.tasks.arena[t as int].parent matches Some(q) ==> q < k.tasks.arena.len());
    let s1 = k.tasks.exited(t, status);
    let s2 = s1.with(p, s1.arena[p as int].signalled(crate::consts::SIGCHLD as i32, crate::utils::signed(a.id) as i64));
    assert forall|j: int| 0 <= j < a.subtasks.len() implies (#[trigger] a.subtasks[j]) < s2.arena.len() by {
        assert(k.tasks.arena[t as int].subtasks[j] < k.tasks.arena.len());
    }
    let r = s2.map[1];
    crate::task::lemma_adopted_keeps(s2, a.subtasks, r, a.subtasks.len() as int);
    crate::task::lemma_adopted(s2, a.subtasks, r, a.subtasks.len() as int);
    assert(a.subtasks.take(a.subtasks.len() as int) =~= a.subtasks);
    let k1 = k.sys_exit(status).k;
    assert(k1.tasks == s2.adopted(a.subtasks, r, a.subtasks.len() as int));
    assert(k1.tasks.arena[t as int].exit_code == s2.arena[t as int].exit_code);
    assert(k1.tasks.arena[p as int].sig_queue == s2.arena[p as int].sig_queue);
}

/// When a process exits with a status and its parent waits for it, the parent is given the number of
/// the process and that status. The number is then free.
#[verifier::spinoff_prover]
pub proof fn law_wait_returns_exit(
    k: KernelState,
    status: u64,
    p: TaskRef,
    pid: u64,
    i: int,
    target: i64,
    options: u64,
    r: Result<(u64, u64), &'static str>,
    after: KernelState,
)
    requires
        k.tasks.linked(),
        k.cur() matches Some(t) && t < k.tasks.arena.len() && k.tasks.arena[t as int].parent == Some(p) && p != t,
        k.tasks.map.dom().contains(pid),
        k.tasks.map[pid] == p,
        0 <= i < k.tasks.arena[p as int].subtasks.len(),
        k.tasks.arena[p as int].subtasks[i] == k.cur()->0,
        forall|j: int|
            0 <= j < i ==> (#[trigger] k.tasks.arena[p as int].subtasks[j]) != k.cur()->0 && k.tasks.arena[k.tasks.arena[p as int].subtasks[j] as int].status is None,
        target == -1 || (target > 0 && k.cur_state().id == target),
        k.sys_exit(status).k.waited(pid, target, options, r, after),
    ensures
        r == Ok::<(u64, u64), &'static str>((k.cur_state().id, status)),
        after.tasks.map == k.tasks.map.remove(k.cur_state().id),
{
    let t = k.cur()->0;
    let a = k.cur_state();
    let sub = k.tasks.arena[p as int].subtasks;
    assert(k.tasks.arena[t as int].parent matches Some(q) ==> q < k.tasks.arena.len());
    let s1 = k.tasks.exited(t, status);
    let s2 = s1.with(p, s1.arena[p as int].signalled(crate::consts::SIGCHLD as i32, crate::utils::signed(a.id) as i64));
    let s = k.sys_exit(status).k.tasks;
    assert forall|x: int| 0 <= x < s2.arena.len() implies {
        let b = #[trigger] s.arena[x];
        &&& b == (TaskState { parent: b.parent, subtasks: b.subtasks, ..s2.arena[x] })
        &&& s2.arena[x].subtasks.len() <= b.subtasks.len()
        &&& s2.arena[x].subtasks == b.subtasks.take(s2.arena[x].subtasks.len() as int)
    } by {
        if s2.map.dom().contains(1) {
            let f = s2.map[1];
            assert(k.tasks.map.dom().contains(1));
            assert forall|j: int| 0 <= j < a.subtasks.len() implies (#[trigger] a.subtasks[j]) < s2.arena.len() by {
                assert(k.tasks.arena[t as int].subtasks[j] < k.tasks.arena.len());
            }
            crate::task::lemma_adopted_keeps(s2, a.subtasks, f, a.subtasks.len() as int);
        } else {
            assert(s2.arena[x].subtasks.take(s2.arena[x].subtasks.len() as int) =~= s2.arena[x].subtasks);
        }
    }
    assert(s.map == k.tasks.map) by {
        if s2.map.dom().contains(1) {
            assert forall|j: int| 0 <= j < a.subtasks.len() implies (#[trigger] a.subtasks[j]) < s2.arena.len() by {
                assert(k.tasks.arena[t as int].subtasks[j] < k.tasks.arena.len());
            }
            assert(k.tasks.map.dom().contains(1));
            crate::task::lemma_adopted_keeps(s2, a.subtasks, s2.map[1], a.subtasks.len() as int);
        }
    }
    let got = s.arena[p as int].subtasks;
    assert(got.take(sub.len() as int) == sub);
    assert forall|j: int| 0 <= j < sub.len() implies #[trigger] got[j] == sub[j] by {
        assert(got.take(sub.len() as int)[j] == sub[j]);
    }
    assert(s.arena[t as int].exit_code == status && s.arena[t as int].id == a.id && s.arena[t as int].status is Some);
    assert(got[i] == t);
    assert(s.awaited(p, target, i));
    assert forall|j: int| 0 <= j < i implies !s.awaited(p, target, j) by {
        let c = sub[j];
        assert(got[j] == c);
        assert(k.tasks.arena[p as int].subtasks[j] < k.tasks.arena.len());
        assert(s.arena[c as int].status == s2.arena[c as int].status);
    }
    let x = choose|x: int| #[trigger]
        s.first_awaited(p, target, x) && {
            let c = s.arena[got[x] as int];
            r == Ok::<(u64, u64), &'static str>((c.id, c.exit_code)) && after == (KernelState {
                tasks: s.reaped(c.id),
                ..k.sys_exit(status).k
            })
        };
    assert(x == i) by {
        if x < i {
            assert(!s.awaited(p, target, x));
        } else if i < x {
            assert(!s.awaited(p, target, i));
        }
    }
    if s.map.dom().contains(a.id) {
        let z = s.map[a.id];
        let b = s.arena[z as int];
        assert(s.linked()) by {
            lemma_exit_linked(k, status, p);
        }
        crate::task::lemma_reaped_keeps(s, a.id);
    } else {
        assert(s.map.remove(a.id) =~= s.map);
    }
}

proof fn lemma_exit_linked(k: KernelState, status: u64, p: TaskRef)
    requires
        k.tasks.linked(),
        k.cur() matches Some(t) && t < k.tasks.arena.len() && k.tasks.arena[t as int].parent == Some(p),
    ensures
        k.sys_exit(status).k.tasks.linked(),
{
    let t = k.cur()->0;
    let a = k.cur_state();
    assert(k.tasks.arena[t as int].parent matches Some(q) ==> q < k.tasks.arena.len());
    let s1 = k.tasks.exited(t, status);
    let s2 = s1.with(p, s1.arena[p as int].signalled(crate::consts::SIGCHLD as i32, crate::utils::signed(a.id) as i64));
    assert forall|x: int| 0 <= x < s2.arena.len() implies (#[trigger] s2.arena[x]).parent == k.tasks.arena[x].parent
        && s2.arena[x].subtasks == k.tasks.arena[x].subtasks by {}
    assert forall|x: int, j: int|
        #![trigger s2.arena[x].subtasks[j]]
        0 <= x < s2.arena.len() && 0 <= j < s2.arena[x].subtasks.len() implies s2.arena[x].subtasks[j] < s2.arena.len() by {
        assert(k.tasks.arena[x].subtasks[j] < k.tasks.arena.len());
    }
    assert(s2.linked());
    if s2.map.dom().contains(1) {
        assert forall|j: int| 0 <= j < a.subtasks.len() implies (#[trigger] a.subtasks[j]) < s2.arena.len() by {
            assert(k.tasks.arena[t as int].subtasks[j] < k.tasks.arena.len());
        }
        crate::task::lemma_adopted_keeps(s2, a.subtasks, s2.map[1], a.subtasks.len() as int);
    }
}

/// A call that waits finds a task that has ended wherever one that is asked for has: for a number
/// that one, for any the one with the lowest number. It never gives one that has not ended.
pub proof fn law_wait_finds_ended(kern: Kernel, pid: u64, options: u64, id: u64)
    requires
        kern.wf(),
        crate::utils::signed(pid) == -1 || crate::utils::signed(pid) > 0,
        crate::utils::signed(pid) > 0 ==> id == pid,
        kern@.tasks.map.dom().contains(id),
        kern@.tasks.arena[kern@.tasks.map[id] as int].status is Some,
    ensures
        ({
            let k = kern@;
            let o = k.sys_wait4(pid, 0, options, 0);
            let n = o.r->Ok_0;
            &&& o.r is Ok && o.k == k
            &&& k.tasks.map.dom().contains(n) && k.tasks.arena[k.tasks.map[n] as int].status is Some
            &&& n <= id && (crate::utils::signed(pid) > 0 ==> n == pid)
        }),
{
    let k = kern@;
    let s = k.tasks;
    let keys = crate::seqs::sorted_keys(s.map);
    let q = crate::task::ended(s, true);
    kern.tasks.map.lemma_key_seq();
    assert(crate::seqs::lists_keys(kern.tasks.map.key_seq(), s.map));
    crate::seqs::lemma_sorted_keys(kern.tasks.map.key_seq(), s.map);
    crate::seqs::lemma_filter_contains(keys, q);
    crate::seqs::lemma_filter_ascending(keys, q);
    let z = s.zombies();
    assert(keys.contains(id) && q(id));
    assert(z.contains(id));
    assert(z.contains(z[0]));
    assert(keys.contains(z[0]));
}

/// A task that was put into a group is in it, and no other task changes.
pub proof fn law_group_is_set(k: KernelState, pid: u64, pgid: u64, i: int)
    requires
        k.tasks.linked(),
        k.cur() is Some,
        0 < pgid <= i32::MAX,
        pid > 0,
        k.tasks.map.dom().contains(pid),
        k.sys_setpgid(pid, pgid).r is Ok,
        0 <= i < k.tasks.arena.len(),
    ensures
        ({
            let k1 = k.sys_setpgid(pid, pgid).k;
            let t = k.tasks.map[pid] as int;
            &&& k1.sys_getpgid(pid) == k1.gives(pgid)
            &&& i != t ==> k1.tasks.arena[i] == k.tasks.arena[i]
            &&& k1.tasks.arena[t] == (TaskState { pgid: pgid as i32, ..k.tasks.arena[t] })
        }),
{
}

/// Only the running task and its children can be put into a group.
pub proof fn law_group_of_strangers(k: KernelState, pid: u64, pgid: u64)
    requires
        k.cur() is Some,
        pid > 0,
        pid != k.cur_state().id,
        k.tasks.map.dom().contains(pid) ==> (k.tasks.arena[k.tasks.map[pid] as int].parent matches Some(p)
            ==> k.tasks.arena[p as int].id != k.cur_state().id),
    ensures
        k.sys_setpgid(pid, pgid) == k.fails("esrch"),
{
}

/// A task that becomes a leader is in a group of its own number.
pub proof fn law_leader_leads(k: KernelState)
    requires
        k.sound(),
        k.cur() is Some,
        k.cur_state().id <= i32::MAX,
        k.tasks.map.dom().contains(k.cur_state().id),
        k.tasks.map[k.cur_state().id] == k.cur()->0,
        k.cur_state().id > 0,
        k.sys_setsid().r is Ok,
    ensures
        k.sys_setsid().r == Ok::<u64, &'static str>(k.cur_state().id),
        k.sys_setsid().k.sys_getpgid(0).r == Ok::<u64, &'static str>(k.cur_state().id),
{
    assert(k.cpus[0] matches Some(x) ==> x < k.tasks.arena.len());
}

/// Which signals a task blocks after it has changed that: more of them, fewer, or just those that
/// were given; never those that end or stop it.
pub proof fn law_mask_is_changed(k: KernelState, how: u64, set: u64, s: u32)
    requires
        k.sound(),
        k.cur() is Some,
        set > 0,
        s < 64,
        k.sys_sigprocmask(how, set, 0).r is Ok,
    ensures
        ({
            let before = crate::utils::on(k.cur_state().sig_mask, s);
            let after = crate::utils::on(k.sys_sigprocmask(how, set, 0).k.cur_state().sig_mask, s);
            let given = crate::utils::on(set, s);
            let never = s == SIGKILL || s == SIGSTOP;
            &&& how <= 2
            &&& how == 0 ==> after == ((before || given) && !never)
            &&& how == 1 ==> after == (before && !given)
            &&& how == 2 ==> after == (given && !never)
        }),
{
    let t = k.cur()->0 as int;
    assert(k.cpus[0] matches Some(x) ==> x < k.tasks.arena.len());
    lemma_reached_to_read(k, set, 8);
    let m = k.cur_state().sig_mask;
    let u = (1u64 << SIGKILL) | (1u64 << SIGSTOP);
    crate::utils::lemma_on(m, set, 0, s);
    crate::utils::lemma_on(m | set, u, 0, s);
    crate::utils::lemma_on(set, u, 0, s);
    crate::utils::lemma_on(1u64 << SIGKILL, 0, SIGSTOP, s);
    crate::utils::lemma_on(0, 1u64 << SIGKILL, SIGKILL, s);
}

/// Moving the end of a task's data rounds it up to whole pages; for each page that the task gains a
/// frame that was free is taken, and where there are too few nothing changes.
pub proof fn law_brk_takes_frames(k: KernelState, end: u64)
    requires
        k.sound(),
        k.cur() is Some,
        0 < end < KERN_BASE,
        k.cur_state().vm_token as int % PAGE_SZ as int == 0,
    ensures
        ({
            let o = k.sys_brk(end);
            let at = o.r->Ok_0;
            let had = k.cur_state().vm_token;
            let free = crate::utils::free_count(k.pool.slots);
            let left = crate::utils::free_count(o.k.pool.slots);
            &&& o.r is Err ==> o == k.fails("enomem") && had + free * PAGE_SZ < end
            &&& o.r is Ok ==> {
                &&& end <= at < end + PAGE_SZ && at % PAGE_SZ == 0
                &&& o.k.cur_state().vm_token == at
                &&& at > had ==> (free - left) * PAGE_SZ == at - had
                &&& at <= had ==> left == free
            }
        }),
{
    assert(k.cpus[0] matches Some(x) ==> x < k.tasks.arena.len());
    let had = k.cur_state().vm_token;
    let up = crate::syscalls::whole_pages(end as int);
    let need = if up > had {
        (up - had) / PAGE_SZ as int
    } else {
        0
    };
    let free = crate::utils::free_count(k.pool.slots);
    assert(end <= up < end + PAGE_SZ && up % PAGE_SZ as int == 0);
    if need <= free {
        law_growth_takes_free_frames(k.pool.slots, k.clock.clk, need as nat);
    }
}

/// A child has the memory of its parent as it was when it was forked, byte for byte, and the same
/// regions; it goes on where the parent stands, in the same directory and group and with the same
/// blocked signals, has a number of its own, and no signals wait for it. The parent keeps what it
/// has, and knows the child.
pub proof fn law_fork_copies(k: KernelState, t: TaskRef, x: int, d: u8, i: int)
    requires
        k.sound(),
        t < k.tasks.arena.len() < usize::MAX,
        0 <= x <= u64::MAX,
        0 <= i < k.tasks.arena.len(),
    ensures
        ({
            let n = k.tasks.arena.len() as int;
            let k1 = k.forked(t);
            let a = k.tasks.arena[t as int];
            let parent = k1.tasks.arena[t as int];
            let child = k1.tasks.arena[n];
            let byte = crate::kernel_struct::user_byte(k.pool.frames, a.space.pages, x, d);
            &&& crate::kernel_struct::user_byte(k1.pool.frames, child.space.pages, x, d) == byte
            &&& crate::kernel_struct::user_byte(k1.pool.frames, parent.space.pages, x, d) == byte
            &&& child.space.regions.len() == a.space.regions.len() && child.vm_token == a.vm_token
            &&& child.id == k.tasks.seq && child.pid.0 == k.tasks.seq && child.parent == Some(t)
            &&& child.thd_ctx == a.thd_ctx && child.cwd == a.cwd && child.exec_path == a.exec_path && child.pgid == a.pgid
            &&& child.sig_mask == a.sig_mask && child.sig_queue.len() == 0 && child.status is None && child.subtasks.len() == 0
            &&& parent.subtasks == a.subtasks.push(n as usize)
            &&& parent == (TaskState { space: parent.space, subtasks: parent.subtasks, ..a })
            &&& i != t ==> k1.tasks.arena[i] == k.tasks.arena[i]
            &&& k1.tasks.map == k.tasks.map.insert(k.tasks.seq, n as usize)
        }),
{
    let pages = k.tasks.arena[t as int].space.pages;
    let xp = crate::address_space::page_of(x as u64);
    assert(crate::address_space::forked_pages(pages).dom() =~= pages.dom());
    if pages.dom().contains(xp) {
        assert(crate::address_space::forked_pages(pages)[xp].frame_id == pages[xp].frame_id);
    }
}

/// A page that is to be written keeps its bytes when it gets a frame to itself, and so does every
/// other page of the task.
pub proof fn law_own_frame_keeps_bytes(k: KernelState, addr: u64, x: int, d: u8)
    requires
        k.sound(),
        k.cur() is Some,
        k.pool.slots.len() <= usize::MAX,
        frames_used(k.cur_state().space.pages, k.pool.slots),
        0 <= x <= u64::MAX,
        k.cur_state().space.pages.dom().contains(crate::address_space::page_of(x as u64)),
        k.faulted(addr, true).0,
    ensures
        ({
            let k1 = k.faulted(addr, true).1;
            let page = crate::address_space::page_of(addr);
            let pages = k1.cur_state().space.pages;
            &&& crate::kernel_struct::user_byte(k1.pool.frames, pages, x, d) == crate::kernel_struct::user_byte(
                k.pool.frames,
                k.cur_state().space.pages,
                x,
                d,
            )
            &&& pages.dom().contains(page) && pages[page].rc <= 1
        }),
{
    assert(k.cpus[0] matches Some(x) ==> x < k.tasks.arena.len());
    let pages = k.cur_state().space.pages;
    let page = crate::address_space::page_of(addr);
    let xp = crate::address_space::page_of(x as u64);
    if !(pages.dom().contains(page) && pages[page].rc <= 1) {
        lemma_first_free(k.pool.slots);
        assert(crate::memory::first_free(k.pool.slots, crate::kernel_struct::lowest_frame(k.pool.slots)));
        assert(pages[xp].frame_id < k.pool.slots.len());
    }
}

/// A task may touch only what its regions allow: reading needs a region that can be read, writing
/// one that can be written; otherwise nothing changes.
pub proof fn law_regions_protect(k: KernelState, addr: u64, writing: bool)
    requires
        k.cur() is Some,
        k.faulted(addr, writing).0,
    ensures
        exists|i: int|
            #![trigger k.cur_state().space.regions[i]]
            0 <= i < k.cur_state().space.regions.len() && ({
                let r = k.cur_state().space.regions[i];
                r.base <= addr < r.base + r.len && r.flags & (if writing { VM_WRITE } else { VM_READ }) != 0
            }),
{
    let s = k.cur_state().space.regions;
    let flag = if writing {
        VM_WRITE
    } else {
        VM_READ
    };
    let i = choose|i: int| #[trigger] crate::address_space::region_at(s, addr, i) && s[i].flags & flag != 0;
    assert(s[i].flags & flag != 0);
}

/// A process that has become the leader of a group cannot do so again.
pub proof fn law_leader_stays(k: KernelState)
    requires
        k.sound(),
        k.cur() is Some,
        k.cur_state().id <= i32::MAX,
    ensures
        k.sys_setsid().r is Ok ==> k.sys_setsid().k.sys_setsid().r == Err::<u64, &'static str>("eperm"),
{
    assert(k.cpus[0] matches Some(x) ==> x < k.tasks.arena.len());
}

/// After all zombies were reaped none is left: no number leads to a task that has ended, and the
/// numbers of all other tasks are kept.
pub proof fn law_reclaiming_leaves_no_zombie(table: TaskTable)
    requires
        table.wf(),
    ensures
        ({
            let s = table@;
            let ids = s.zombies();
            let after = s.reaped_all(ids, ids.len() as int);
            forall|k: u64| #[trigger]
                after.map.dom().contains(k) <==> s.map.dom().contains(k) && s.arena[s.map[k] as int].status is None
        }),
{
    let s = table@;
    let ids = s.zombies();
    let p = crate::task::ended(s, true);
    let keys = crate::seqs::sorted_keys(s.map);
    table.map.lemma_key_seq();
    assert(crate::seqs::lists_keys(table.map.key_seq(), s.map));
    crate::seqs::lemma_sorted_keys(table.map.key_seq(), s.map);
    crate::seqs::lemma_filter_contains(keys, p);
    assert forall|j: int| 0 <= j < ids.len() implies s.map.dom().contains(#[trigger] ids[j])
        && s.arena[s.map[ids[j]] as int].status is Some by {
        assert(ids.contains(ids[j]));
        assert(keys.contains(ids[j]) && p(ids[j]));
    }
    lemma_reaped_all(s, ids, ids.len() as int);
    assert(ids.take(ids.len() as int) =~= ids);
    let after = s.reaped_all(ids, ids.len() as int);
    assert forall|k: u64| #[trigger] after.map.dom().contains(k) <==> s.map.dom().contains(k)
        && s.arena[s.map[k] as int].status is None by {
        if s.map.dom().contains(k) {
            assert(keys.contains(k));
            if s.arena[s.map[k] as int].status is Some {
                assert(p(k));
                assert(ids.contains(k));
            } else {
                assert(!p(k));
                assert(!ids.contains(k));
            }
        }
    }
}

proof fn lemma_reaped_all(s: TableState, ids: Seq<u64>, n: int)
    requires
        s.linked(),
        0 <= n <= ids.len(),
        forall|j: int|
            0 <= j < ids.len() ==> s.map.dom().contains(#[trigger] ids[j]) && s.arena[s.map[ids[j]] as int].status is Some,
    ensures
        ({
            let after = s.reaped_all(ids, n);
            &&& after.linked()
            &&& after.arena.len() == s.arena.len()
            &&& forall|i: int|
                0 <= i < s.arena.len() ==> ((#[trigger] after.arena[i]).status is Some <==> s.arena[i].status is Some)
            &&& forall|k: u64| #[trigger]
                after.map.dom().contains(k) <==> s.map.dom().contains(k) && !ids.take(n).contains(k)
            &&& forall|k: u64| #[trigger] after.map.dom().contains(k) ==> after.map[k] == s.map[k]
        }),
    decreases n,
{
    if n > 0 {
        lemma_reaped_all(s, ids, n - 1);
        let before = s.reaped_all(ids, n - 1);
        let id = ids[n - 1];
        crate::task::lemma_reaped_keeps(before, id);
        let after = before.reaped(id);
        assert(ids.take(n) =~= ids.take(n - 1).push(id));
        assert forall|i: int| 0 <= i < s.arena.len() implies ((#[trigger] after.arena[i]).status is Some
            <==> s.arena[i].status is Some) by {
            assert(before.arena[i].status is Some <==> s.arena[i].status is Some);
            if before.map.dom().contains(id) {
                assert(before.arena[before.map[id] as int].status is Some);
            }
        }
        assert forall|k: u64| #[trigger] after.map.dom().contains(k) <==> s.map.dom().contains(k) && !ids.take(n).contains(k) by {
            if ids.take(n).contains(k) && k != id {
                let t = ids.take(n);
                let j = choose|j: int| 0 <= j < t.len() && t[j] == k;
                assert(ids.take(n - 1)[j] == k);
            }
            if ids.take(n - 1).contains(k) {
                let t = ids.take(n - 1);
                let j = choose|j: int| 0 <= j < t.len() && t[j] == k;
                assert(ids.take(n)[j] == k);
            }
            assert(ids.take(n)[n - 1] == id);
        }
    } else {
        assert(ids.take(0) =~= Seq::<u64>::empty());
    }
}

/// A number that was given to a child is not given again.
pub proof fn law_fork_numbers_differ(k: KernelState)
    requires
        k.tasks.seq < u64::MAX,
    ensures
        k.sys_fork().k.tasks.seq > k.tasks.seq,
        k.sys_fork().r matches Ok(n) ==> n == k.tasks.seq && k.sys_fork().k.sys_fork().r != Ok::<u64, &'static str>(n),
{
}

/// The kernel's own memory is out of reach: a call that is to read or write there is refused, and
/// nothing changes.
pub proof fn law_kernel_is_out_of_reach(k: KernelState, fd: u64, addr: u64, count: u64, flags: u64)
    requires
        addr >= KERN_BASE,
        count > 0,
    ensures
        k.sys_read(fd, addr, count) == k.fails("efault"),
        k.sys_write(fd, addr, count) == k.fails("efault"),
        k.sys_open(addr, flags) == k.fails("efault"),
        k.sys_stat(addr, addr) == k.fails("efault"),
        k.sys_fstat(addr) == k.fails("efault"),
        k.sys_pipe(addr) == k.fails("efault"),
        k.sys_exec(addr, 0, 0) == k.fails("efault"),
        k.sys_clock_gettime(fd, addr) == k.fails("efault"),
        k.sys_futex(addr, flags, fd, 0, 0, 0) == k.fails("efault"),
{
}

/// A place for a mapping starts with a page and lies whole between where mappings begin and the
/// kernel's own memory, unless the caller insists on a place of their own, which is then given. There
/// are free frames for all of it. Looking for a place changes nothing, and what was given that way can
/// be taken away again.
pub proof fn law_mapping_has_room(k: KernelState, addr: u64, len: u64, flags: u64, fd: u64, off: u64)
    requires
        k.mappable(addr, len, flags, fd),
    ensures
        k.sys_mmap(addr, len, flags, fd, off).k == k,
        k.sys_mmap(addr, len, flags, fd, off).r is Ok ==> {
            let at = k.sys_mmap(addr, len, flags, fd, off).r->Ok_0;
            &&& len > 0
            &&& crate::utils::free_count(k.pool.slots) * PAGE_SZ >= len
            &&& if addr != 0 && flags / 0x10 % 2 == 1 {
                at == addr
            } else {
                &&& at % PAGE_SZ == 0
                &&& crate::syscalls::MMAP_START <= at
                &&& at + len <= KERN_BASE
                &&& k.sys_munmap(at) == k.gives(0)
            }
        },
        k.sys_mmap(addr, len, flags, fd, off).r is Err ==> len == 0 || off > len || crate::utils::free_count(k.pool.slots) * PAGE_SZ
            < len + PAGE_SZ,
{
    if len > 0 {
        let whole = crate::syscalls::whole_pages(len as int);
        assert(len <= whole < len + PAGE_SZ && whole % PAGE_SZ as int == 0);
        if !(addr != 0 && flags / 0x10 % 2 == 1) {
            let room = KERN_BASE - crate::syscalls::MMAP_START - whole;
            let slot = (k.clock.clk * PAGE_SZ + fd * PAGE_SZ) % room;
            assert(0 <= slot < room);
        }
    }
}

/// What a signal does can be asked about and set for every signal but the two that always end or stop
/// a task.
pub proof fn law_two_signals_are_fixed(k: KernelState, signo: u64, act: u64, oldact: u64)
    ensures
        (k.sys_sigaction(signo, 0, 0) == k.gives(0)) == (1 <= signo <= 63 && signo != SIGKILL && signo != SIGSTOP),
        signo == SIGKILL || signo == SIGSTOP ==> k.sys_sigaction(signo, act, oldact) == k.fails("einval"),
{
}

/// Waking at a futex wakes no more tasks than there are and no more than were asked for, at least one,
/// and that many if there are as many. Of those to be moved and those to be woken no more are counted
/// than were asked for.
pub proof fn law_wakes_are_counted(k: KernelState, uaddr: u64, val: u64, timeout: u64, uaddr2: u64, val3: u64)
    requires
        k.sound(),
        k.tasks.map.len() <= u64::MAX,
        k.reached(uaddr, 4, true).0,
    ensures
        k.sys_futex(uaddr, 1, val, timeout, uaddr2, val3).r matches Ok(n) && {
            &&& n <= k.tasks.map.len()
            &&& val > 0 ==> n <= val
            &&& val > 0 && n < val ==> n == k.tasks.map.len()
        },
        k.sys_futex(uaddr, 1, 0, timeout, uaddr2, val3) == k.sys_futex(uaddr, 1, 1, timeout, uaddr2, val3),
        k.futex_fits(3, val, val3) && k.sys_futex(uaddr, 3, val, timeout, uaddr2, val3).r is Ok ==> k.sys_futex(
            uaddr,
            3,
            val,
            timeout,
            uaddr2,
            val3,
        ).r->Ok_0 <= val + val3,
        k.sys_futex(uaddr, 9, val, timeout, uaddr2, val3).r matches Ok(n) ==> n <= val + val3 && n <= 64,
{
    crate::syscalls::law_reaching_keeps(k, uaddr, 4, true);
}

/// A duplicate asked for by control of a descriptor has no lower number than the descriptor and than
/// was asked for. The flags that a descriptor has can be set. No such call works on a number that is
/// too high for a descriptor.
pub proof fn law_descriptors_are_controlled(k: KernelState, fd: u64, cmd: u64, arg: u64)
    requires
        k.controllable(fd, cmd, arg),
    ensures
        cmd == crate::consts::F_DUPFD && k.sys_fcntl(fd, cmd, arg).r is Ok ==> {
            let n = k.sys_fcntl(fd, cmd, arg).r->Ok_0;
            n >= fd && n >= arg
        },
        cmd == crate::consts::F_DUPFD_CLOEXEC && k.sys_fcntl(fd, cmd, arg).r is Ok ==> {
            let n = k.sys_fcntl(fd, cmd, arg).r->Ok_0;
            n > fd && n > arg && (n == fd + 1 || n == arg + 1)
        },
        k.sys_fcntl(fd, crate::consts::F_GETFL, arg).r matches Ok(f) ==> k.sys_fcntl(fd, crate::consts::F_SETFL, f) == k.gives(0),
        k.sys_fcntl(fd, crate::consts::F_GETFL, arg).r is Ok == (fd < 1024),
        fd >= 1024 ==> k.sys_fcntl(fd, cmd, arg) == k.fails("ebadf"),
{
    assert(0o4000u64 & !(0o4000u64 | 0o2000u64) == 0 && (0o4000u64 | 0o2000u64) & !(0o4000u64 | 0o2000u64) == 0)
        by (bit_vector);
}

/// Epoll instances get numbers above those of the three standard streams. Without an event only taking
/// a descriptor away is accepted, and no events can be waited for without a place for them.
pub proof fn law_epoll_calls(k: KernelState, size: u64, op: u64, max: u64)
    ensures
        k.sys_epoll_create(size).k == k,
        k.sys_epoll_create(size).r matches Ok(n) ==> size > 0 && n > 2,
        0 < size <= 1024 ==> k.sys_epoll_create(size).r is Ok,
        k.sys_epoll_ctl(op, 0).r is Ok == (op as i32 == 2),
        k.sys_epoll_ctl(op, 0).k == k,
        k.sys_epoll_wait(0, max) == k.fails("einval"),
        k.sys_epoll_wait(size, 0) == k.fails("einval"),
{
}

/// A call that is to tell something succeeds just where it can write all of what it tells, and the
/// time is told of just three clocks.
pub proof fn law_answers_need_room(k: KernelState, path: u64, buf: u64, id: u64)
    ensures
        k.sys_fstat(buf).r is Ok == (buf != 0 && k.reached(buf, 144, true).0),
        k.sys_stat(path, buf).r is Ok == (buf != 0 && k.reached(buf, 144, true).0 && k.reached(buf, 144, true).1.reached(
            path,
            256,
            false,
        ).0),
        k.sys_clock_gettime(id, buf).r is Ok == (buf != 0 && k.reached(buf, 16, true).0 && (id == 0 || id == 1 || id == 4)),
        k.sys_ioctl(crate::consts::TIOCGPGRP, buf).r is Ok == k.reached(buf, 4, true).0,
        k.sys_ioctl(crate::consts::TCGETS, buf).r is Ok == k.reached(buf, crate::files::TRMIO_SZ, true).0,
        k.sys_ioctl(crate::consts::TCSETS, buf).r is Ok == k.reached(buf, crate::files::TRMIO_SZ, false).0,
{
}

/// Programs reach the calls by their numbers.
pub proof fn law_calls_have_numbers(k: KernelState, a: u64, b: u64, c: u64, d: u64, e: u64, f: u64)
    ensures
        k.syscall(0, a, b, c, d, e, f) == k.sys_read(a, b, c),
        k.syscall(1, a, b, c, d, e, f) == k.sys_write(a, b, c),
        k.syscall(2, a, b, c, d, e, f) == k.sys_open(a, b),
        k.syscall(3, a, b, c, d, e, f) == k.sys_close(a),
        k.syscall(4, a, b, c, d, e, f) == k.sys_stat(a, b),
        k.syscall(5, a, b, c, d, e, f) == k.sys_fstat(b),
        k.syscall(9, a, b, c, d, e, f) == k.sys_mmap(a, b, d, e, f),
        k.syscall(11, a, b, c, d, e, f) == k.sys_munmap(a),
        k.syscall(12, a, b, c, d, e, f) == k.sys_brk(a),
        k.syscall(13, a, b, c, d, e, f) == k.sys_sigaction(a, b, c),
        k.syscall(14, a, b, c, d, e, f) == k.sys_sigprocmask(a, b, c),
        k.syscall(16, a, b, c, d, e, f) == k.sys_ioctl(b, c),
        k.syscall(22, a, b, c, d, e, f) == k.sys_pipe(a),
        k.syscall(32, a, b, c, d, e, f) == k.sys_dup(a),
        k.syscall(33, a, b, c, d, e, f) == k.sys_dup2(a, b),
        k.syscall(39, a, b, c, d, e, f) == k.sys_getpid(),
        k.syscall(57, a, b, c, d, e, f) == k.sys_fork(),
        k.syscall(59, a, b, c, d, e, f) == k.sys_exec(a, b, c),
        k.syscall(60, a, b, c, d, e, f) == k.sys_exit(a),
        k.syscall(61, a, b, c, d, e, f) == k.sys_wait4(a, b, c, d),
        k.syscall(62, a, b, c, d, e, f) == k.sys_kill(a, b),
        k.syscall(72, a, b, c, d, e, f) == k.sys_fcntl(a, b, c),
        k.syscall(83, a, b, c, d, e, f) == k.sys_mkdir(a),
        k.syscall(87, a, b, c, d, e, f) == k.sys_unlink(a),
        k.syscall(109, a, b, c, d, e, f) == k.sys_setpgid(a, b),
        k.syscall(110, a, b, c, d, e, f) == k.sys_getppid(),
        k.syscall(112, a, b, c, d, e, f) == k.sys_setsid(),
        k.syscall(121, a, b, c, d, e, f) == k.sys_getpgid(a),
        k.syscall(202, a, b, c, d, e, f) == k.sys_futex(a, b, c, d, e, f),
        k.syscall(213, a, b, c, d, e, f) == k.sys_epoll_create(a),
        k.syscall(228, a, b, c, d, e, f) == k.sys_clock_gettime(a, b),
        k.syscall(232, a, b, c, d, e, f) == k.sys_epoll_wait(b, c),
        k.syscall(233, a, b, c, d, e, f) == k.sys_epoll_ctl(b, d),
{
}

/// A task learns its own number and that of its parent: a child that runs is told the number under
/// which it was made, and that of the task that made it.
pub proof fn law_child_knows_numbers(k: KernelState, t: TaskRef)
    requires
        k.sound(),
        t < k.tasks.arena.len() < usize::MAX,
    ensures
        ({
            let k1 = k.forked(t);
            let child = KernelState { cpus: k1.cpus.update(0, Some(k.tasks.arena.len() as usize)), ..k1 };
            let parent = KernelState { cpus: k1.cpus.update(0, Some(t)), ..k1 };
            &&& child.sys_getpid().r == Ok::<u64, &'static str>(k.tasks.seq)
            &&& child.sys_getppid().r == parent.sys_getpid().r
            &&& parent.sys_getpid().r == Ok::<u64, &'static str>(k.tasks.arena[t as int].id)
        }),
{
}

/// A call that the kernel does not know is refused, and nothing changes.
pub proof fn law_unknown_call(k: KernelState, nr: u64, a0: u64, a1: u64, a2: u64, a3: u64, a4: u64, a5: u64)
    requires
        nr > 233,
    ensures
        k.admissible(nr, a0, a1, a2, a3, a4, a5),
        k.syscall(nr, a0, a1, a2, a3, a4, a5) == k.fails("enosys"),
{
}

/// Characters from the terminal are read in the order in which they were typed, a carriage return as
/// a line feed and all others as they are, as long as there is room for them.
pub proof fn law_terminal_keeps_order(k: KernelState, c: u8)
    requires
        k.tty.len() < crate::kernel_struct::TTY_CAP,
    ensures
        ({
            let read = if c == 13 { 10u8 } else { c };
            &&& k.tty.len() == 0 ==> k.typed(c).next_typed() == (Some(read), k)
            &&& k.tty.len() > 0 ==> k.typed(c).next_typed().0 == k.next_typed().0 && k.next_typed().0 is Some
                && k.typed(c).next_typed().1 == k.next_typed().1.typed(c)
            &&& k.tty.len() == 0 ==> k.next_typed().0 is None
        }),
{
    let k1 = k.typed(c);
    if k.tty.len() == 0 {
        assert(k1.tty.skip(1) =~= k.tty);
        assert(k1.next_typed().1 =~= k);
    } else {
        assert(k1.tty.skip(1) =~= k.tty.skip(1).push(k1.tty.last()));
        assert(k1.next_typed().1 =~= k.next_typed().1.typed(c));
    }
}

} // verus!
