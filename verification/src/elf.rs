//! Headers of ELF files.

use vstd::prelude::*;

verus! {

/// The 16-bit number at `at`, low byte first.
pub open spec fn half_at(d: Seq<u8>, at: int) -> int {
    d[at] + d[at + 1] * 0x100
}

/// The 32-bit number at `at`, low byte first.
pub open spec fn word_at(d: Seq<u8>, at: int) -> int {
    half_at(d, at) + half_at(d, at + 2) * 0x1_0000
}

/// The 64-bit number at `at`, low byte first.
pub open spec fn quad_at(d: Seq<u8>, at: int) -> int {
    word_at(d, at) + word_at(d, at + 4) * 0x1_0000_0000
}

/// Where program header `i` starts.
pub open spec fn phdr_at(d: Seq<u8>, i: int) -> int {
    quad_at(d, 32) + i * half_at(d, 54)
}

/// Program header `i` lies in the file far enough for its type to be read, and asks for a segment
/// to be loaded.
pub open spec fn loads(d: Seq<u8>, i: int) -> bool {
    &&& 0 <= i < half_at(d, 56)
    &&& phdr_at(d, i) + 4 <= d.len()
    &&& word_at(d, phdr_at(d, i)) == 1
}

/// Some program header asks for a segment to be loaded.
pub open spec fn has_load(d: Seq<u8>) -> bool {
    exists|i: int| loads(d, i)
}

/// What is wrong with the header of `d`, the first fault counting.
pub open spec fn elf_fault(d: Seq<u8>) -> Option<&'static str> {
    if d.len() < 64 {
        Some("too_short")
    } else if d[0] != 0x7f || d[1] != 0x45 || d[2] != 0x4c || d[3] != 0x46 {
        Some("bad_magic")
    } else if d[4] != 2 {
        Some("not_64bit")
    } else if d[5] != 1 {
        Some("not_le")
    } else if d[6] != 1 {
        Some("bad_version")
    } else if half_at(d, 16) != 2 && half_at(d, 16) != 3 {
        Some("not_exec")
    } else if half_at(d, 56) == 0 {
        Some("no_phdrs")
    } else if phdr_at(d, half_at(d, 56)) > d.len() {
        Some("ph_overflow")
    } else if !has_load(d) {
        Some("no_load")
    } else {
        None
    }
}

fn read_half(d: &[u8], at: usize) -> (v: u64)
    requires
        at + 2 <= d@.len(),
    ensures
        v == half_at(d@, at as int),
        v < 0x1_0000,
{
    d[at] as u64 + d[at + 1] as u64 * 0x100
}

fn read_word(d: &[u8], at: usize) -> (v: u64)
    requires
        at + 4 <= d@.len(),
    ensures
        v == word_at(d@, at as int),
        v < 0x1_0000_0000,
{
    let _n = d.len();
    read_half(d, at) + read_half(d, at + 2) * 0x1_0000
}

fn read_quad(d: &[u8], at: usize) -> (v: u64)
    requires
        at + 8 <= d@.len(),
    ensures
        v == quad_at(d@, at as int),
{
    let _n = d.len();
    read_word(d, at) + read_word(d, at + 4) * 0x1_0000_0000
}

/// Checks the header of a 64-bit executable: its length and magic number, its class, byte order
/// and version, its type, and that its program headers lie in the file and load something. Gives
/// the entry point.
pub fn validate_elf_header(data: &[u8]) -> (r: Result<u64, &'static str>)
    ensures
        match elf_fault(data@) {
            Some(e) => r == Err::<u64, &'static str>(e),
            None => r is Ok && r->Ok_0 == quad_at(data@, 24),
        },
{
    let n = data.len();
    if n < 64 {
        return Err("too_short");
    }
    if data[0] != 0x7f || data[1] != 0x45 || data[2] != 0x4c || data[3] != 0x46 {
        return Err("bad_magic");
    }
    if data[4] != 2 {
        return Err("not_64bit");
    }
    if data[5] != 1 {
        return Err("not_le");
    }
    if data[6] != 1 {
        return Err("bad_version");
    }
    let e_type: u64 = read_half(data, 16);
    if e_type != 2 && e_type != 3 {
        return Err("not_exec");
    }
    let e_entry: u64 = read_quad(data, 24);
    let e_phoff: u64 = read_quad(data, 32);
    let e_phentsize: u64 = read_half(data, 54);
    let e_phnum: u64 = read_half(data, 56);
    if e_phnum == 0 {
        return Err("no_phdrs");
    }
    assert(e_phnum * e_phentsize <= 0x1_0000_0000) by (nonlinear_arith)
        requires
            e_phnum < 0x1_0000,
            e_phentsize < 0x1_0000,
    ;
    if e_phoff > n as u64 || e_phnum * e_phentsize > n as u64 - e_phoff {
        return Err("ph_overflow");
    }
    let mut base: u64 = e_phoff;
    let mut idx: u64 = 0;
    let mut loaded = false;
    while idx < e_phnum && 4 <= n as u64 - base
        invariant
            n == data@.len(),
            n >= 64,
            idx <= e_phnum,
            e_phnum == half_at(data@, 56),
            e_phentsize == half_at(data@, 54),
            e_phoff == quad_at(data@, 32),
            e_phoff + e_phnum * e_phentsize <= n,
            n <= usize::MAX,
            base == phdr_at(data@, idx as int),
            base <= n,
            loaded ==> has_load(data@),
            !loaded ==> forall|i: int| 0 <= i < idx ==> !loads(data@, i),
        decreases e_phnum - idx,
    {
        if read_word(data, base as usize) == 1 {
            assert(loads(data@, idx as int));
            loaded = true;
        }
        proof {
            assert((idx + 1) * e_phentsize == idx * e_phentsize + e_phentsize) by (nonlinear_arith);
            assert((idx + 1) * e_phentsize <= e_phnum * e_phentsize) by (nonlinear_arith)
                requires
                    idx + 1 <= e_phnum,
            ;
        }
        base = base + e_phentsize;
        idx += 1;
    }
    proof {
        assert forall|i: int| idx <= i implies !loads(data@, i) by {
            if i < e_phnum {
                assert(idx * e_phentsize <= i * e_phentsize) by (nonlinear_arith)
                    requires
                        idx <= i,
                        0 <= e_phentsize,
                ;
            }
        }
    }
    if !loaded {
        return Err("no_load");
    }
    Ok(e_entry)
}

/// A header is accepted only if its program headers lie in the file and one of them is loaded.
pub proof fn law_accepted_is_loadable(d: Seq<u8>)
    requires
        elf_fault(d) is None,
    ensures
        d.len() >= 64,
        has_load(d),
        phdr_at(d, half_at(d, 56)) <= d.len(),
{
}

/// What is accepted is an executable or a shared object for a 64-bit little-endian machine: it
/// begins with the magic bytes and names that class, byte order, version and kind, and one of its
/// program headers, which lie within the image, is to be loaded.
pub proof fn law_accepted_is_an_executable(d: Seq<u8>)
    requires
        elf_fault(d) is None,
    ensures
        d.len() >= 64,
        d[0] == 0x7f && d[1] == 0x45 && d[2] == 0x4c && d[3] == 0x46,
        d[4] == 2 && d[5] == 1 && d[6] == 1,
        (d[16] == 2 || d[16] == 3) && d[17] == 0,
        d[56] != 0 || d[57] != 0,
        exists|i: int, at: int|
            #![trigger d[at], phdr_at(d, i)]
            0 <= i < d[56] + d[57] * 0x100 && at == phdr_at(d, i) && at + 4 <= d.len() && d[at] == 1 && d[at + 1] == 0 && d[at
                + 2] == 0 && d[at + 3] == 0,
{
    let i = choose|i: int| loads(d, i);
    let at = phdr_at(d, i);
    assert(word_at(d, at) == d[at] + d[at + 1] * 0x100 + d[at + 2] * 0x1_0000 + d[at + 3] * 0x100_0000);
    assert(d[at] == 1 && d[at + 1] == 0 && d[at + 2] == 0 && d[at + 3] == 0);
}

/// Numbers in an image have their lowest byte first.
pub proof fn law_lowest_byte_first(d: Seq<u8>, at: int)
    requires
        0 <= at,
        at + 8 <= d.len(),
    ensures
        half_at(d, at) == d[at] + d[at + 1] * 0x100,
        word_at(d, at) == d[at] + d[at + 1] * 0x100 + d[at + 2] * 0x1_0000 + d[at + 3] * 0x100_0000,
        quad_at(d, at) == word_at(d, at) + word_at(d, at + 4) * 0x1_0000_0000,
{
}

} // verus!
