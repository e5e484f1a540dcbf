//! Checks and summaries over the kernel's tables.

use vstd::prelude::*;
use crate::consts::{KERN_BASE, KHEAP_SZ, PAGE_SZ, VM_EXEC, VM_SHARED, VM_WRITE};
use crate::files::{FLike, FRef, FileHeap, HeapState, PipeDir};
use crate::mount::MountEntry;
use crate::ordmap::OrdMap;
use crate::vm::{check_access, VmRegion};

verus! {

/// The numbers from `a` on, before `b`.
pub open spec fn gap(a: int, b: int) -> Seq<u64> {
    Seq::new((if a < b { b - a } else { 0 }) as nat, |i: int| (a + i) as u64)
}

/// A descriptor that should not be open: the end of a pipe that is written when another end is
/// closed and bytes are left, or a file without a path.
pub open spec fn suspicious(f: FRef, h: HeapState) -> bool {
    match f {
        FRef::Pipe(p) => p.dir == PipeDir::Wr && p.pipe(h).ends < 2 && p.pipe(h).buf.len() > 0,
        FRef::File(f) => f.path.len() == 0,
        FRef::Ep(_) => false,
    }
}

/// What an audit of the descriptors `keys` finds, up to the `n`-th: descriptors that are missing in
/// between, and those that should not be open.
pub open spec fn findings(keys: Seq<u64>, m: Map<u64, FRef>, h: HeapState, n: int) -> Seq<u64>
    decreases n,
{
    if n <= 0 {
        Seq::empty()
    } else {
        let fd = keys[n - 1];
        let before = findings(keys, m, h, n - 1) + (if n >= 2 {
            gap(keys[n - 2] + 1, fd as int)
        } else {
            Seq::empty()
        });
        if suspicious(m[fd], h) {
            before.push(fd)
        } else {
            before
        }
    }
}

/// Audits a descriptor table: gives the descriptors that are missing between others, and those that
/// should not be open, in ascending order.
pub fn audit_fd_table(files: &OrdMap<FLike>, heap: &FileHeap) -> (leaks: Vec<u64>)
    requires
        files.wf(),
        heap.wf(),
        forall|k: u64| #[trigger] files@.dom().contains(k) ==> files@[k].valid(heap@),
    ensures
        leaks@ == findings(
            crate::seqs::sorted_keys(files@),
            crate::task::refs_of(files@),
            heap@,
            crate::seqs::sorted_keys(files@).len() as int,
        ),
{
    let n = files.len();
    let ghost keys = files.key_seq();
    let ghost m = crate::task::refs_of(files@);
    let mut leaks: Vec<u64> = Vec::new();
    let mut i: usize = 0;
    proof {
        files.lemma_key_seq();
        crate::seqs::lemma_sorted_keys(keys, files@);
    }
    while i < n
        invariant
            files.wf(),
            heap.wf(),
            forall|k: u64| #[trigger] files@.dom().contains(k) ==> files@[k].valid(heap@),
            n == keys.len(),
            keys == files.key_seq(),
            m == crate::task::refs_of(files@),
            i <= n,
            leaks@ == findings(keys, m, heap@, i as int),
        decreases n - i,
    {
        let fd: u64 = files.key_at(i);
        if i > 0 {
            let p: u64 = files.key_at(i - 1);
            proof {
                files.lemma_key_seq();
                assert(keys[i - 1] < keys[i as int]);
            }
            let ghost start = leaks@;
            let mut g: u64 = p + 1;
            assert(leaks@ =~= start + gap(p + 1, g as int));
            while g < fd
                invariant
                    p + 1 <= g <= fd,
                    leaks@ == start + gap(p + 1, g as int),
                decreases fd - g,
            {
                leaks.push(g);
                g += 1;
                assert(leaks@ =~= start + gap(p + 1, g as int));
            }
        } else {
            assert(leaks@ =~= leaks@ + Seq::<u64>::empty());
        }
        proof {
            files.lemma_key_seq();
            assert(files@.dom().contains(fd));
        }
        let fl = files.val_at(i);
        let bad = match fl {
            FLike::Pipe(_) => fl.poll(heap).2,
            FLike::File(fh) => fh.path.as_str().is_empty(),
            FLike::Ep(_) => false,
        };
        assert(bad == suspicious(m[fd], heap@));
        if bad {
            leaks.push(fd);
        }
        i += 1;
    }
    leaks
}

/// One step of the hash: mix in a byte, then multiply.
pub open spec fn byte_mixed(h: u64, b: u8) -> u64 {
    (h ^ (b as u64)).wrapping_mul(0x100000001b3)
}

/// The hash over the first `n` bytes.
pub open spec fn bytes_mixed(d: Seq<u8>, n: int) -> u64
    decreases n,
{
    if n <= 0 {
        0xcbf29ce484222325
    } else {
        byte_mixed(bytes_mixed(d, n - 1), d[n - 1])
    }
}

/// The hash of a mount: over the bytes of the prefix and the length of the device's name.
pub open spec fn mount_hash(m: crate::mount::Mount) -> u64 {
    let b = vstd::utf8::encode_utf8(m.0);
    (bytes_mixed(b, b.len() as int) ^ (crate::text::byte_len(m.1) as u64)).wrapping_mul(0x517cc1b727220a95)
}

/// The place of each of the first `n` mounts by its hash; of mounts with one hash, the last.
pub open spec fn hashed(t: Seq<crate::mount::Mount>, n: int) -> Map<u64, usize>
    decreases n,
{
    if n <= 0 {
        Map::empty()
    } else {
        hashed(t, n - 1).insert(mount_hash(t[n - 1]), (n - 1) as usize)
    }
}

/// The places of mounts by their hashes.
pub fn rehash_mount_cache(entries: &Vec<MountEntry>) -> (map: OrdMap<usize>)
    ensures
        map.wf(),
        map@ == hashed(crate::mount::mounts(entries@), entries@.len() as int),
{
    let ghost t = crate::mount::mounts(entries@);
    let mut map: OrdMap<usize> = OrdMap::new();
    let mut i: usize = 0;
    while i < entries.len()
        invariant
            map.wf(),
            i <= entries@.len(),
            t == crate::mount::mounts(entries@),
            map@ == hashed(t, i as int),
        decreases entries@.len() - i,
    {
        let e = &entries[i];
        assert(t[i as int] == e@);
        let b = e.prefix.as_str().as_bytes();
        let mut h: u64 = 0xcbf29ce484222325;
        let mut k: usize = 0;
        while k < b.len()
            invariant
                k <= b@.len(),
                h == bytes_mixed(b@, k as int),
            decreases b@.len() - k,
        {
            h = (h ^ (b[k] as u64)).wrapping_mul(0x100000001b3);
            k += 1;
        }
        h = (h ^ (e.target.as_str().as_bytes().len() as u64)).wrapping_mul(0x517cc1b727220a95);
        let _ = map.insert(h, i);
        i += 1;
    }
    map
}

/// How much a region counts: its pages, thrice if it is executed and twice if it is written, and
/// all of it twice if it is not shared.
pub open spec fn rss_weight(r: VmRegion) -> int {
    let pages = (r.len + PAGE_SZ - 1) / PAGE_SZ as int;
    let weight = if r.flags & VM_EXEC != 0 {
        pages * 3
    } else if r.flags & VM_WRITE != 0 {
        pages * 2
    } else {
        pages
    };
    if r.flags & VM_SHARED != 0 {
        weight
    } else {
        weight * 2
    }
}

/// How much the first `n` regions count.
pub open spec fn rss_total(s: Seq<VmRegion>, n: int) -> int
    decreases n,
{
    if n <= 0 {
        0
    } else {
        rss_total(s, n - 1) + rss_weight(s[n - 1])
    }
}

proof fn lemma_rss_total(s: Seq<VmRegion>, m: int, n: int)
    requires
        0 <= m <= n,
    ensures
        0 <= rss_total(s, m) <= rss_total(s, n),
    decreases n,
{
    if m < n {
        lemma_rss_total(s, m, n - 1);
    } else if m > 0 {
        lemma_rss_total(s, m - 1, n - 1);
    }
}

/// The mark up to which a process may use memory: a hundred times the weight of its regions by the
/// number of frames, but no more than half the frames.
pub fn compute_rss_watermark(regions: &[VmRegion], pool_cap: u64) -> (mark: u64)
    requires
        forall|i: int| 0 <= i < regions@.len() ==> (#[trigger] regions@[i]).len + PAGE_SZ - 1 <= u64::MAX,
        rss_total(regions@, regions@.len() as int) * 100 <= u64::MAX,
    ensures
        regions@.len() == 0 || pool_cap == 0 ==> mark == 0,
        regions@.len() > 0 && pool_cap > 0 ==> {
            let raw = rss_total(regions@, regions@.len() as int) * 100 / pool_cap as int;
            mark == (if raw < pool_cap as int / 2 { raw } else { pool_cap as int / 2 })
        },
{
    if regions.len() == 0 || pool_cap == 0 {
        return 0;
    }
    let mut total: u64 = 0;
    let mut i: usize = 0;
    while i < regions.len()
        invariant
            i <= regions@.len(),
            forall|i: int| 0 <= i < regions@.len() ==> (#[trigger] regions@[i]).len + PAGE_SZ - 1 <= u64::MAX,
            rss_total(regions@, regions@.len() as int) * 100 <= u64::MAX,
            total == rss_total(regions@, i as int),
        decreases regions@.len() - i,
    {
        proof {
            lemma_rss_total(regions@, i + 1, regions@.len() as int);
            lemma_rss_total(regions@, i as int, i + 1);
        }
        let r = &regions[i];
        let pages: u64 = (r.len + (PAGE_SZ - 1)) / PAGE_SZ;
        let weight: u64 = if (r.flags & VM_EXEC) != 0 {
            pages * 3
        } else if (r.flags & VM_WRITE) != 0 {
            pages * 2
        } else {
            pages
        };
        if (r.flags & VM_SHARED) != 0 {
            total = total + weight;
        } else {
            total = total + weight * 2;
        }
        i += 1;
    }
    let raw: u64 = total * 100 / pool_cap;
    if raw < pool_cap / 2 {
        raw
    } else {
        pool_cap / 2
    }
}

/// What is wrong with an access of this mode to these bytes: 0 reads, 1 writes, and 2 pins whole
/// pages, of which there may be no more than the kernel's heap has.
pub open spec fn access_fault(mode: u8, addr: u64, len: u64) -> Option<&'static str> {
    let end = addr + len;
    if len == 0 {
        None
    } else if end > u64::MAX {
        Some("eoverflow")
    } else if end >= KERN_BASE {
        Some("efault")
    } else if mode <= 1 {
        None
    } else if mode == 2 {
        if (end + PAGE_SZ - 1) / PAGE_SZ as int * PAGE_SZ - crate::address_space::page_of(addr) > KHEAP_SZ {
            Some("efault")
        } else {
            None
        }
    } else {
        Some("einval")
    }
}

/// Checks an access of process `pid` to user memory.
pub fn validate_access(mode: u8, addr: u64, len: u64, pid: u64) -> (r: Result<(), &'static str>)
    ensures
        r == (match access_fault(mode, addr, len) {
            Some(e) => Err::<(), &'static str>(e),
            None => Ok(()),
        }),
{
    if len == 0 {
        return Ok(());
    }
    if len > u64::MAX - addr {
        return Err("eoverflow");
    }
    let end: u64 = addr + len;
    if end >= KERN_BASE {
        return Err("efault");
    }
    if mode <= 1 {
        if !check_access(addr, len) {
            return Err("efault");
        }
        Ok(())
    } else if mode == 2 {
        let first: u64 = addr - addr % PAGE_SZ;
        let last: u64 = (end + PAGE_SZ - 1) / PAGE_SZ * PAGE_SZ;
        if last - first > KHEAP_SZ {
            return Err("efault");
        }
        if !check_access(addr, len) {
            return Err("efault");
        }
        Ok(())
    } else {
        Err("einval")
    }
}

/// What an audit finds in a table without holes and without suspicious files is nothing.
pub proof fn law_clean_table(keys: Seq<u64>, m: Map<u64, FRef>, h: HeapState, n: int)
    requires
        0 <= n <= keys.len(),
        forall|i: int| 0 <= i < keys.len() ==> (#[trigger] keys[i]) == i,
        forall|i: int| 0 <= i < keys.len() ==> !suspicious(m[#[trigger] keys[i]], h),
    ensures
        findings(keys, m, h, n) == Seq::<u64>::empty(),
    decreases n,
{
    if n > 0 {
        law_clean_table(keys, m, h, n - 1);
        if n >= 2 {
            assert(keys[n - 2] == n - 2);
            assert(gap(keys[n - 2] + 1, keys[n - 1] as int) =~= Seq::<u64>::empty());
        }
        assert(findings(keys, m, h, n) =~= Seq::<u64>::empty());
    }
}

/// What is reported of a table are the descriptors that are suspicious and those that are missing
/// between two that are open, and nothing else.
pub proof fn law_findings_are_exact(keys: Seq<u64>, m: Map<u64, FRef>, h: HeapState, n: int, x: u64)
    requires
        0 <= n <= keys.len(),
        crate::seqs::ascending(keys),
    ensures
        findings(keys, m, h, n).contains(x) <==> ({
            ||| exists|i: int| 0 <= i < n && #[trigger] keys[i] == x && suspicious(m[x], h)
            ||| n > 0 && keys[0] < x < keys[n - 1] && forall|i: int| 0 <= i < n ==> #[trigger] keys[i] != x
        }),
    decreases n,
{
    let f = findings(keys, m, h, n);
    if n > 0 {
        law_findings_are_exact(keys, m, h, n - 1, x);
        let fd = keys[n - 1];
        let old = findings(keys, m, h, n - 1);
        let g = if n >= 2 {
            gap(keys[n - 2] + 1, fd as int)
        } else {
            Seq::empty()
        };
        let before = old + g;
        assert(before.contains(x) <==> old.contains(x) || g.contains(x)) by {
            if old.contains(x) {
                let j = choose|j: int| 0 <= j < old.len() && old[j] == x;
                assert(before[j] == x);
            }
            if g.contains(x) {
                let j = choose|j: int| 0 <= j < g.len() && g[j] == x;
                assert(before[old.len() + j] == x);
            }
            if before.contains(x) {
                let j = choose|j: int| 0 <= j < before.len() && before[j] == x;
                if j < old.len() {
                    assert(old[j] == x);
                } else {
                    assert(g[j - old.len()] == x);
                }
            }
        }
        assert(g.contains(x) <==> n >= 2 && keys[n - 2] < x < fd) by {
            if n >= 2 && keys[n - 2] < x < fd {
                assert(g[x - keys[n - 2] - 1] == x);
            }
        }
        assert(f.contains(x) <==> before.contains(x) || (suspicious(m[fd], h) && x == fd)) by {
            if before.contains(x) {
                let j = choose|j: int| 0 <= j < before.len() && before[j] == x;
                assert(f[j] == x);
            }
            if suspicious(m[fd], h) && x == fd {
                assert(f[before.len() as int] == x);
            }
            if f.contains(x) {
                let j = choose|j: int| 0 <= j < f.len() && f[j] == x;
                if j < before.len() {
                    assert(before[j] == x);
                }
            }
        }
        if n >= 2 {
            assert(keys[n - 2] < fd);
            assert(keys[0] <= keys[n - 2]);
        }
        assert forall|i: int| 0 <= i < n - 1 implies #[trigger] keys[i] < fd by {}
        assert(keys[n - 1] == fd);
        if f.contains(x) {
            if suspicious(m[fd], h) && x == fd {
                assert(keys[n - 1] == x);
            }
            if g.contains(x) {
                assert forall|i: int| 0 <= i < n implies #[trigger] keys[i] != x by {
                    if i < n - 2 {
                        assert(keys[i] < keys[n - 2]);
                    }
                }
            }
        }
    }
}

/// An access that is let through stays below the kernel.
pub proof fn law_access_stays_below_kernel(mode: u8, addr: u64, len: u64)
    requires
        access_fault(mode, addr, len) is None,
        len > 0,
    ensures
        addr + len < KERN_BASE,
        mode <= 2,
{
}

} // verus!
