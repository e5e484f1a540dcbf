//! Free-standing helpers: pattern search, checksums, variable-length integers and bit tricks.

use vstd::prelude::*;
use vstd::arithmetic::power2::*;
use vstd::bits::*;
use crate::consts::{KERN_BASE, PAGE_SZ};

verus! {

// ---------------------------------------------------------------------------------------------
// Pattern search
// ---------------------------------------------------------------------------------------------

/// `pat` stands in `data` at position `at`.
pub open spec fn occurs_at(data: Seq<u8>, pat: Seq<u8>, at: int) -> bool {
    0 <= at <= data.len() - pat.len() && data.subrange(at, at + pat.len()) == pat
}

/// The first `k` bytes of `p` are the last `k` bytes of `d[0..n]`.
spec fn tail_is(p: Seq<u8>, k: int, d: Seq<u8>, n: int) -> bool {
    &&& 0 <= k <= n <= d.len()
    &&& k <= p.len()
    &&& forall|j: int| 0 <= j < k ==> #[trigger] p[j] == d[n - k + j]
}

/// `f` is the length of the longest proper border of `p[0..n]`.
spec fn longest_border(p: Seq<u8>, n: int, f: int) -> bool {
    &&& 0 <= f < n
    &&& tail_is(p, f, p, n)
    &&& forall|k: int| f < k < n ==> !tail_is(p, k, p, n)
}

proof fn lemma_tail_nested(p: Seq<u8>, k: int, q: int, d: Seq<u8>, n: int)
    requires
        tail_is(p, q, d, n),
        0 <= k <= q,
    ensures
        tail_is(p, k, d, n) <==> tail_is(p, k, p, q),
{
    if tail_is(p, k, d, n) {
        assert forall|j: int| 0 <= j < k implies #[trigger] p[j] == p[q - k + j] by {
            assert(p[q - k + j] == d[n - q + (q - k + j)]);
        }
    }
    if tail_is(p, k, p, q) {
        assert forall|j: int| 0 <= j < k implies #[trigger] p[j] == d[n - k + j] by {
            assert(p[q - k + j] == d[n - q + (q - k + j)]);
        }
    }
}

proof fn lemma_tail_step(p: Seq<u8>, k: int, d: Seq<u8>, n: int)
    requires
        0 <= k < p.len(),
        0 <= n < d.len(),
    ensures
        tail_is(p, k + 1, d, n + 1) <==> tail_is(p, k, d, n) && p[k] == d[n],
{
    if tail_is(p, k + 1, d, n + 1) {
        assert(p[k] == d[n + 1 - (k + 1) + k]);
        assert forall|j: int| 0 <= j < k implies #[trigger] p[j] == d[n - k + j] by {
            assert(p[j] == d[n + 1 - (k + 1) + j]);
        }
    }
    if tail_is(p, k, d, n) && p[k] == d[n] {
        assert forall|j: int| 0 <= j < k + 1 implies #[trigger] p[j] == d[n + 1 - (k + 1) + j] by {
            if j < k {
                assert(p[j] == d[n - k + j]);
            }
        }
    }
}

proof fn lemma_tail_occurs(p: Seq<u8>, d: Seq<u8>, n: int)
    requires
        0 <= n <= d.len(),
    ensures
        tail_is(p, p.len() as int, d, n) <==> occurs_at(d, p, n - p.len()),
{
    let at = n - p.len();
    if tail_is(p, p.len() as int, d, n) {
        assert(d.subrange(at, at + p.len()) =~= p);
    }
    if occurs_at(d, p, at) {
        assert forall|j: int| 0 <= j < p.len() implies #[trigger] p[j] == d[n - p.len() + j] by {
            assert(d.subrange(at, at + p.len())[j] == d[at + j]);
        }
    }
}

/// The longest proper border of every prefix of `pattern`.
fn border_table(pattern: &[u8]) -> (fail: Vec<usize>)
    requires
        pattern@.len() > 0,
    ensures
        fail@.len() == pattern@.len(),
        forall|i: int| 0 <= i < fail@.len() ==> longest_border(pattern@, i + 1, #[trigger] fail@[i] as int),
{
    let plen = pattern.len();
    let mut fail: Vec<usize> = Vec::new();
    fail.push(0);
    let mut k: usize = 0;
    let mut i: usize = 1;
    let ghost p = pattern@;
    while i < plen
        invariant
            p == pattern@,
            1 <= i <= plen,
            plen == p.len(),
            fail@.len() == i,
            forall|m: int| 0 <= m < i ==> longest_border(p, m + 1, #[trigger] fail@[m] as int),
            k == fail@[i - 1],
        decreases plen - i,
    {
        assert(longest_border(p, i as int, k as int)) by {
            assert(fail@[i - 1] == k);
        }
        while k > 0 && pattern[k] != pattern[i]
            invariant
                p == pattern@,
                1 <= i < plen,
                plen == p.len(),
                fail@.len() == i,
                k < i,
                forall|m: int| 0 <= m < i ==> longest_border(p, m + 1, #[trigger] fail@[m] as int),
                tail_is(p, k as int, p, i as int),
                forall|c: int| k < c < i ==> !(#[trigger] tail_is(p, c, p, i as int) && p[c] == p[i as int]),
            decreases k,
        {
            let ghost was = k as int;
            k = fail[k - 1];
            proof {
                assert(longest_border(p, was, k as int));
                lemma_tail_nested(p, k as int, was, p, i as int);
                assert forall|c: int| k < c < i implies !(#[trigger] tail_is(p, c, p, i as int) && p[c] == p[i as int]) by {
                    if c < was {
                        lemma_tail_nested(p, c, was, p, i as int);
                        assert(!tail_is(p, c, p, was));
                    }
                }
            }
        }
        let ghost base = k as int;
        proof {
            assert forall|c: int| base + 1 < c < i + 1 implies !#[trigger] tail_is(p, c, p, i + 1) by {
                lemma_tail_step(p, c - 1, p, i as int);
                assert(!(tail_is(p, c - 1, p, i as int) && p[c - 1] == p[i as int]));
            }
            lemma_tail_step(p, base, p, i as int);
            assert(tail_is(p, 0, p, i + 1));
        }
        if pattern[k] == pattern[i] {
            k += 1;
        }
        fail.push(k);
        i += 1;
        assert(longest_border(p, i as int, k as int)) by {
            assert forall|c: int| k < c < i implies !tail_is(p, c, p, i as int) by {
                if c == base + 1 {
                }
            }
        }
    }
    fail
}

/// Positions of `pattern` in `data`, ascending, stopping once `max_matches` are found.
///
/// At least one match is reported where there is one, also for `max_matches == 0`.
pub fn mem_scan_pattern(data: &[u8], pattern: &[u8], max_matches: usize) -> (results: Vec<usize>)
    ensures
        pattern@.len() == 0 ==> results@.len() == 0,
        forall|a: int, b: int| 0 <= a < b < results@.len() ==> results@[a] < results@[b],
        forall|a: int| 0 <= a < results@.len() ==> occurs_at(data@, pattern@, #[trigger] results@[a] as int),
        results@.len() <= max_matches || results@.len() <= 1,
        // nothing is passed over before the scan stops
        forall|at: int| pattern@.len() > 0 && #[trigger] occurs_at(data@, pattern@, at) && (results@.len() == 0 || results@.len() < max_matches
            || at <= results@.last()) ==> results@.contains(at as usize),
{
    let mut results: Vec<usize> = Vec::new();
    let ghost d = data@;
    let ghost p = pattern@;
    if pattern.len() == 0 || data.len() < pattern.len() {
        return results;
    }
    let plen = pattern.len();
    let fail = border_table(pattern);
    let mut q: usize = 0;
    let mut i: usize = 0;
    let n = data.len();
    assert(tail_is(p, 0, d, 0));
    while i < n
        invariant
            d == data@,
            p == pattern@,
            n == d.len(),
            plen == p.len(),
            plen > 0,
            i <= n,
            q < plen,
            fail@.len() == plen,
            forall|m: int| 0 <= m < plen ==> longest_border(p, m + 1, #[trigger] fail@[m] as int),
            tail_is(p, q as int, d, i as int),
            forall|c: int| q < c < plen ==> !#[trigger] tail_is(p, c, d, i as int),
            forall|a: int, b: int| 0 <= a < b < results@.len() ==> results@[a] < results@[b],
            forall|a: int| 0 <= a < results@.len() ==> occurs_at(d, p, #[trigger] results@[a] as int) && results@[a] + plen <= i,
            forall|at: int| #[trigger] occurs_at(d, p, at) && at + plen <= i ==> results@.contains(at as usize),
            results@.len() == 0 || results@.len() < max_matches,
        decreases n - i,
    {
        while q > 0 && pattern[q] != data[i]
            invariant
                d == data@,
                p == pattern@,
                n == d.len(),
                plen == p.len(),
                i < n,
                q < plen,
                fail@.len() == plen,
                forall|m: int| 0 <= m < plen ==> longest_border(p, m + 1, #[trigger] fail@[m] as int),
                tail_is(p, q as int, d, i as int),
                forall|c: int| q < c < plen ==> !(#[trigger] tail_is(p, c, d, i as int) && p[c] == d[i as int]),
            decreases q,
        {
            let ghost was = q as int;
            q = fail[q - 1];
            proof {
                assert(longest_border(p, was, q as int));
                lemma_tail_nested(p, q as int, was, d, i as int);
                assert forall|c: int| q < c < plen implies !(#[trigger] tail_is(p, c, d, i as int) && p[c] == d[i as int]) by {
                    if c < was {
                        lemma_tail_nested(p, c, was, d, i as int);
                        assert(!tail_is(p, c, p, was));
                    }
                }
            }
        }
        let ghost base = q as int;
        proof {
            assert forall|c: int| base + 1 < c <= plen implies !#[trigger] tail_is(p, c, d, i + 1) by {
                lemma_tail_step(p, c - 1, d, i as int);
                assert(!(tail_is(p, c - 1, d, i as int) && p[c - 1] == d[i as int]));
            }
            lemma_tail_step(p, base, d, i as int);
            assert(tail_is(p, 0, d, i + 1));
        }
        if pattern[q] == data[i] {
            q += 1;
        }
        let ghost full = q as int;
        proof {
            assert(tail_is(p, full, d, i + 1));
            assert forall|c: int| full < c <= plen implies !#[trigger] tail_is(p, c, d, i + 1) by {
                if c == base + 1 {
                }
            }
            lemma_tail_occurs(p, d, i + 1);
        }
        let ghost before = results@;
        if q == plen {
            results.push(i + 1 - plen);
            proof {
                assert forall|at: int| #[trigger] occurs_at(d, p, at) && at + plen <= i + 1 implies results@.contains(at as usize) by {
                    if at + plen <= i {
                        let w = choose|w: int| 0 <= w < before.len() && before[w] == at as usize;
                        assert(before.contains(at as usize));
                        assert(results@[w] == at as usize);
                    } else {
                        assert(results@[before.len() as int] == at as usize);
                    }
                }
            }
            if results.len() >= max_matches {
                proof {
                    assert(results@.last() + plen == i + 1);
                }
                return results;
            }
            q = fail[q - 1];
            proof {
                assert(longest_border(p, plen as int, q as int));
                lemma_tail_nested(p, q as int, plen as int, d, i + 1);
                assert forall|c: int| q < c < plen implies !#[trigger] tail_is(p, c, d, i + 1) by {
                    lemma_tail_nested(p, c, plen as int, d, i + 1);
                    assert(!tail_is(p, c, p, plen as int));
                }
            }
        } else {
            proof {
                assert(!occurs_at(d, p, i + 1 - plen));
            }
        }
        i += 1;
        proof {
            assert forall|at: int| #[trigger] occurs_at(d, p, at) && at + plen <= i implies results@.contains(at as usize) by {
                if at + plen == i && full != plen {
                    assert(at == i - plen);
                }
            }
        }
    }
    results
}

// ---------------------------------------------------------------------------------------------
// Checksums and hashes
// ---------------------------------------------------------------------------------------------

/// One bit of the reflected CRC-32 division.
pub open spec fn crc_bit(c: u32) -> u32 {
    if c & 1 != 0 {
        (c >> 1) ^ 0xEDB8_8320
    } else {
        c >> 1
    }
}

/// `n` bits of the division.
pub open spec fn crc_bits(c: u32, n: nat) -> u32
    decreases n,
{
    if n == 0 {
        c
    } else {
        crc_bit(crc_bits(c, (n - 1) as nat))
    }
}

/// The register after `data`, starting from `c`.
pub open spec fn crc_register(c: u32, data: Seq<u8>) -> u32
    decreases data.len(),
{
    if data.len() == 0 {
        c
    } else {
        crc_bits(crc_register(c, data.drop_last()) ^ data.last() as u32, 8)
    }
}

/// CRC-32 of `data` (reflected polynomial, all-ones start, complemented result).
pub fn compute_crc32(data: &[u8]) -> (r: u32)
    ensures
        r == !crc_register(0xFFFF_FFFF, data@),
{
    let mut crc: u32 = 0xFFFF_FFFF;
    let mut i: usize = 0;
    while i < data.len()
        invariant
            i <= data@.len(),
            crc == crc_register(0xFFFF_FFFF, data@.take(i as int)),
        decreases data@.len() - i,
    {
        crc = crc ^ (data[i] as u32);
        let ghost start = crc;
        let mut b: u32 = 0;
        while b < 8
            invariant
                b <= 8,
                crc == crc_bits(start, b as nat),
            decreases 8 - b,
        {
            if crc & 1 != 0 {
                crc = (crc >> 1) ^ 0xEDB8_8320;
            } else {
                crc = crc >> 1;
            }
            b += 1;
        }
        i += 1;
        assert(data@.take(i as int).drop_last() =~= data@.take(i - 1));
    }
    assert(data@.take(i as int) =~= data@);
    !crc
}

/// Folds `value` into `seed`.
pub fn hash_combine(seed: u64, value: u64) -> (r: u64)
    ensures
        r == seed ^ value.wrapping_mul(0x9e3779b97f4a7c15).wrapping_add(seed << 6).wrapping_add(seed >> 2),
{
    seed ^ (value.wrapping_mul(0x9e3779b97f4a7c15).wrapping_add(seed << 6).wrapping_add(seed >> 2))
}

/// `h` with its high bits folded onto its low ones.
pub open spec fn fold33(h: u64) -> u64 {
    h ^ (h >> 33)
}

/// The last avalanche rounds of MurmurHash3.
pub fn murmurhash3_finalize(h: u64) -> (r: u64)
    ensures
        r == fold33(fold33(fold33(h).wrapping_mul(0xff51afd7ed558ccd)).wrapping_mul(0xc4ceb9fe1a85ec53)),
{
    let mut h: u64 = h;
    h = h ^ (h >> 33);
    h = h.wrapping_mul(0xff51afd7ed558ccd);
    h = h ^ (h >> 33);
    h = h.wrapping_mul(0xc4ceb9fe1a85ec53);
    h = h ^ (h >> 33);
    h
}

// ---------------------------------------------------------------------------------------------
// Variable-length integers
// ---------------------------------------------------------------------------------------------

/// The encoding of `v`: seven bits per byte, low group first, the top bit set on all but the last.
pub open spec fn varint(v: u64) -> Seq<u8>
    decreases v,
{
    if v < 128 {
        seq![v as u8]
    } else {
        seq![(v % 128 + 128) as u8] + varint(v / 128)
    }
}

/// The number whose seven-bit groups, low group first, are the bytes of `s`.
pub open spec fn varint_sum(s: Seq<u8>) -> nat
    decreases s.len(),
{
    if s.len() == 0 {
        0
    } else {
        (s[0] as nat % 128) + 128 * varint_sum(s.drop_first())
    }
}

/// The first `n` bytes of `data` are one group sequence: only the last lacks the top bit.
pub open spec fn varint_ends(data: Seq<u8>, n: int) -> bool {
    &&& 1 <= n <= data.len()
    &&& data[n - 1] < 128
    &&& forall|j: int| 0 <= j < n - 1 ==> data[j] >= 128
}

/// A group sequence of `n` bytes at the head of `data` holds a 64-bit number.
pub open spec fn varint_fits(data: Seq<u8>, n: int) -> bool {
    varint_ends(data, n) && n <= 10 && (n == 10 ==> data[9] <= 1)
}

proof fn lemma_varint_sum_push(s: Seq<u8>, b: u8)
    ensures
        varint_sum(s.push(b)) == varint_sum(s) + (b as nat % 128) * pow2(7 * s.len()),
    decreases s.len(),
{
    if s.len() == 0 {
        lemma2_to64();
        assert(s.push(b).drop_first() =~= Seq::<u8>::empty());
        assert(varint_sum(s.push(b).drop_first()) == 0);
    } else {
        assert(s.push(b).drop_first() =~= s.drop_first().push(b));
        lemma_varint_sum_push(s.drop_first(), b);
        lemma2_to64();
        lemma_pow2_adds(7, (7 * (s.len() - 1)) as nat);
        assert(7 + 7 * (s.len() - 1) == 7 * s.len());
        let x = b as nat % 128;
        let y = pow2((7 * (s.len() - 1)) as nat);
        assert(128 * (x * y) == x * (128 * y)) by (nonlinear_arith);
    }
}

proof fn lemma_varint_sum_bound(s: Seq<u8>)
    ensures
        varint_sum(s) < pow2(7 * s.len()),
    decreases s.len(),
{
    lemma2_to64();
    if s.len() > 0 {
        lemma_varint_sum_bound(s.drop_first());
        lemma_pow2_adds(7, (7 * (s.len() - 1)) as nat);
        assert(7 + 7 * (s.len() - 1) == 7 * s.len());
    }
}

/// Appends the encoding of `value` to `out` and returns its length.
pub fn encode_varint(value: u64, out: &mut Vec<u8>) -> (count: usize)
    ensures
        final(out)@ == old(out)@ + varint(value),
        count == varint(value).len(),
{
    let mut value: u64 = value;
    let ghost whole = value;
    let mut count: usize = 0;
    let ghost start = out@;
    proof {
        lemma2_to64_rest();
        lemma_pow2_strictly_increases(64, 70);
        lemma_varint_len(whole, 10);
    }
    loop
        invariant_except_break
            out@ + varint(value) == start + varint(whole),
            count + varint(value).len() == varint(whole).len(),
            varint(whole).len() <= 10,
        ensures
            out@ == start + varint(whole),
            count == varint(whole).len(),
        decreases value,
    {
        let ghost v = value;
        let mut byte: u8 = (value & 0x7F) as u8;
        value = value >> 7;
        proof {
            assert(v & 0x7F == v % 128 && v >> 7 == v / 128) by (bit_vector);
            let low = (v % 128) as u8;
            assert(low < 128 ==> (low | 0x80) == low + 128) by (bit_vector);
        }
        if value != 0 {
            byte = byte | 0x80;
        }
        let ghost sofar = out@;
        out.push(byte);
        count += 1;
        proof {
            if v < 128 {
                assert(out@ =~= sofar + varint(v));
            } else {
                assert(out@ + varint(value) =~= sofar + varint(v));
            }
        }
        if value == 0 {
            break;
        }
    }
    count
}

/// Reads one number off the head of `data`: its value and the bytes it took.
pub fn decode_varint(data: &[u8]) -> (r: Option<(u64, usize)>)
    ensures
        match r {
            Some((v, n)) => varint_fits(data@, n as int) && v == varint_sum(data@.take(n as int)),
            None => forall|n: int| !#[trigger] varint_fits(data@, n),
        },
{
    let mut result: u64 = 0;
    let mut shift: u32 = 0;
    let mut i: usize = 0;
    let ghost d = data@;
    while i < data.len()
        invariant
            d == data@,
            i <= d.len(),
            i <= 9,
            shift == 7 * i,
            result == varint_sum(d.take(i as int)),
            forall|j: int| 0 <= j < i ==> d[j] >= 128,
        decreases d.len() - i,
    {
        let byte: u8 = data[i];
        if shift >= 63 && byte > 1 {
            assert forall|n: int| !#[trigger] varint_fits(d, n) by {
                if varint_fits(d, n) {
                    if n - 1 < i {
                        assert(d[n - 1] >= 128);
                    }
                    assert(n == 10);
                }
            }
            return None;
        }
        let low: u64 = (byte & 0x7F) as u64;
        let ghost prev = result;
        proof {
            assert(byte & 0x7F == byte % 128) by (bit_vector);
            assert((byte & 0x80 == 0) == (byte < 128)) by (bit_vector);
            lemma_varint_sum_bound(d.take(i as int));
            lemma_varint_sum_push(d.take(i as int), byte);
            assert(d.take(i + 1) =~= d.take(i as int).push(byte));
            lemma2_to64();
            lemma2_to64_rest();
            lemma_pow2_adds(shift as nat, (64 - shift) as nat);
            lemma_pow2_pos(shift as nat);
            lemma_pow2_pos((64 - shift) as nat);
            let p = pow2(shift as nat);
            let m = pow2((64 - shift) as nat);
            if shift < 63 {
                lemma_pow2_adds(7, (57 - shift) as nat);
                lemma_pow2_pos((57 - shift) as nat);
                assert(7 + (57 - shift) == 64 - shift);
                let z = pow2((57 - shift) as nat);
                assert(low < m) by (nonlinear_arith)
                    requires
                        low < 128,
                        m == 128 * z,
                        z >= 1,
                ;
            }
            assert(p <= u64::MAX) by (nonlinear_arith)
                requires
                    p * m == 0x1_0000_0000_0000_0000,
                    m >= 2,
                    p >= 1,
            ;
            assert(low * p <= u64::MAX) by (nonlinear_arith)
                requires
                    p * m == 0x1_0000_0000_0000_0000,
                    low < m,
                    p >= 1,
            ;
            lemma_u64_shl_is_mul(low, shift as u64);
            assert(1 * p == p);
            lemma_u64_shl_is_mul(1, shift as u64);
            let s = shift as u64;
            assert(s < 64 && prev < (1u64 << s) ==> (prev | (low << s)) == prev + (low << s)) by (bit_vector);
            assert(low << s == low << shift);
        }
        result = result | (low << shift);
        if byte & 0x80 == 0 {
            assert(varint_ends(d, i + 1));
            return Some((result, i + 1));
        }
        shift += 7;
        if i >= 9 {
            return None;
        }
        i += 1;
    }
    assert forall|n: int| !#[trigger] varint_fits(d, n) by {
        if varint_fits(d, n) {
            assert(d[n - 1] >= 128);
        }
    }
    None
}

proof fn lemma_varint_shape(v: u64)
    ensures
        varint_ends(varint(v), varint(v).len() as int),
        varint_sum(varint(v)) == v,
    decreases v,
{
    if v < 128 {
        assert(varint(v).drop_first() =~= Seq::<u8>::empty());
        assert(varint_sum(varint(v).drop_first()) == 0);
    } else {
        lemma_varint_shape(v / 128);
        assert(varint(v).drop_first() =~= varint(v / 128));
        let s = varint(v);
        assert forall|j: int| 0 <= j < s.len() - 1 implies s[j] >= 128 by {
            if j > 0 {
                assert(s[j] == varint(v / 128)[j - 1]);
            }
        }
        assert(s[s.len() - 1] == varint(v / 128)[s.len() - 2]);
    }
}

proof fn lemma_varint_len(v: u64, n: nat)
    requires
        n >= 1,
        v < pow2(7 * n),
    ensures
        varint(v).len() <= n,
    decreases n,
{
    lemma2_to64();
    if v >= 128 {
        if n == 1 {
            assert(false);
        }
        lemma_pow2_adds(7, (7 * (n - 1)) as nat);
        assert(7 + 7 * (n - 1) == 7 * n);
        let m = pow2((7 * (n - 1)) as nat);
        assert(v / 128 < m) by (nonlinear_arith)
            requires
                v < 128 * m,
        ;
        lemma_varint_len(v / 128, (n - 1) as nat);
    }
}

/// Decoding undoes encoding: whatever follows the encoding of `v`, exactly its bytes are taken
/// and `v` comes back.
pub proof fn law_varint_round_trip(v: u64, rest: Seq<u8>)
    ensures
        varint_fits(varint(v) + rest, varint(v).len() as int),
        varint_sum((varint(v) + rest).take(varint(v).len() as int)) == v,
        forall|n: int| varint_fits(varint(v) + rest, n) ==> n == varint(v).len(),
{
    let s = varint(v);
    let d = s + rest;
    lemma_varint_shape(v);
    lemma2_to64();
    lemma2_to64_rest();
    lemma_pow2_strictly_increases(64, 70);
    lemma_varint_len(v, 10);
    assert(d.take(s.len() as int) =~= s);
    assert(varint_ends(d, s.len() as int));
    if s.len() == 10 {
        lemma_varint_sum_push(s.take(9), s[9]);
        assert(s.take(9).push(s[9]) =~= s);
        let x = s[9] as nat;
        assert(x <= 1) by (nonlinear_arith)
            requires
                x * 0x8000_0000_0000_0000 <= 0xffff_ffff_ffff_ffff,
        ;
    }
    assert forall|n: int| varint_fits(d, n) implies n == s.len() by {
        if n < s.len() {
            assert(d[n - 1] >= 128);
        }
        if n > s.len() {
            assert(d[s.len() - 1] >= 128);
        }
    }
}

// ---------------------------------------------------------------------------------------------
// Bits
// ---------------------------------------------------------------------------------------------

/// Bit `i` of `v`.
pub open spec fn bit(v: u64, i: u64) -> bool {
    (v >> i) & 1 == 1
}

/// Bit `i` of `v` is set, as a mask tells it.
pub open spec fn on(v: u64, i: u32) -> bool {
    v & (1u64 << i) != 0
}

/// What setting and clearing bit `i`, and joining masks, does to bit `j`.
pub proof fn lemma_on(x: u64, y: u64, i: u32, j: u32)
    by (bit_vector)
    requires
        i < 64,
        j < 64,
    ensures
        (x | (1u64 << i)) & (1u64 << j) != 0 <==> i == j || x & (1u64 << j) != 0,
        (x & !(1u64 << i)) & (1u64 << j) != 0 <==> i != j && x & (1u64 << j) != 0,
        (x & y) & (1u64 << j) != 0 <==> x & (1u64 << j) != 0 && y & (1u64 << j) != 0,
        (x | y) & (1u64 << j) != 0 <==> x & (1u64 << j) != 0 || y & (1u64 << j) != 0,
        (x & !y) & (1u64 << j) != 0 <==> x & (1u64 << j) != 0 && y & (1u64 << j) == 0,
        0u64 & (1u64 << j) == 0,
        !0u64 & (1u64 << j) != 0,
{
}

/// Takes the bits of `b` where `mask` is set and those of `a` elsewhere.
pub fn bitwise_merge(a: u64, b: u64, mask: u64) -> (r: u64)
    ensures
        r == (a & !mask) | (b & mask),
        forall|i: u64| i < 64 ==> #[trigger] bit(r, i) == (if bit(mask, i) { bit(b, i) } else { bit(a, i) }),
{
    let r: u64 = (a & !mask) | (b & mask);
    assert forall|i: u64| i < 64 implies #[trigger] bit(r, i) == (if bit(mask, i) { bit(b, i) } else { bit(a, i) }) by {
        assert((((((a & !mask) | (b & mask)) >> i) & 1 == 1) == (if (mask >> i) & 1 == 1 { (b >> i) & 1 == 1 } else { (a >> i) & 1 == 1 })))
            by (bit_vector)
            requires
                i < 64,
        ;
    }
    r
}

proof fn lemma_bit_shl(x: u64, a: u64, t: u64)
    requires
        a < 64,
        t < 64,
    ensures
        bit(x << a, t) == (t >= a && bit(x, (t - a) as u64)),
{
    assert((((x << a) >> t) & 1 == 1) == (t >= a && (x >> ((t - a) as u64)) & 1 == 1)) by (bit_vector)
        requires
            a < 64,
            t < 64,
    ;
}

proof fn lemma_bit_shr(x: u64, b: u64, t: u64)
    requires
        b < 64,
        t < 64,
    ensures
        bit(x >> b, t) == (t + b < 64 && bit(x, (t + b) as u64)),
{
    assert((((x >> b) >> t) & 1 == 1) == (t + b < 64 && (x >> ((t + b) as u64)) & 1 == 1)) by (bit_vector)
        requires
            b < 64,
            t < 64,
    ;
}

proof fn lemma_bit_and(x: u64, y: u64, t: u64)
    by (bit_vector)
    requires
        t < 64,
    ensures
        bit(x & y, t) == (bit(x, t) && bit(y, t)),
{
}

proof fn lemma_bit_or(x: u64, y: u64, t: u64)
    by (bit_vector)
    requires
        t < 64,
    ensures
        bit(x | y, t) == (bit(x, t) || bit(y, t)),
{
}

/// The mask of the low `w` bits.
spec fn low_mask(w: u64) -> u64 {
    if w == 64 {
        0xffff_ffff_ffff_ffff
    } else {
        ((1u64 << w) - 1) as u64
    }
}

proof fn lemma_bit_mask(w: u64, t: u64)
    requires
        0 < w <= 64,
        t < 64,
    ensures
        bit(low_mask(w), t) == (t < w),
{
    assert(w < 64 ==> ((((((1u64 << w) - 1) as u64) >> t) & 1 == 1) == (t < w))) by (bit_vector)
        requires
            0 < w,
            t < 64,
    ;
    assert((0xffff_ffff_ffff_ffffu64 >> t) & 1 == 1) by (bit_vector)
        requires
            t < 64,
    ;
}

/// Rotates the low `width` bits of `value` up by `amount`.
///
/// A width outside `1..=64`, and an amount that is a multiple of the width, leave `value` as it is.
pub fn rotate_bits(value: u64, amount: u32, width: u32) -> (r: u64)
    ensures
        width == 0 || width > 64 || amount % width == 0 ==> r == value,
        0 < width <= 64 && amount % width != 0 ==> {
            &&& forall|i: u64| i < width ==> bit(r, ((i + amount) % width as int) as u64) == #[trigger] bit(value, i)
            &&& forall|i: u64| width <= i < 64 ==> !#[trigger] bit(r, i)
        },
{
    if width == 0 || width > 64 {
        return value;
    }
    let actual: u32 = amount % width;
    if actual == 0 {
        return value;
    }
    proof {
        let w = width as u64;
        assert(0 < w < 64 ==> (1u64 << w) >= 1) by (bit_vector);
    }
    let mask: u64 = if width == 64 {
        0xffff_ffff_ffff_ffff
    } else {
        (1u64 << width) - 1
    };
    let v: u64 = value & mask;
    let r: u64 = ((v << actual) | (v >> (width - actual))) & mask;
    proof {
        let w = width as u64;
        let a = actual as u64;
        let b = (width - actual) as u64;
        assert forall|i: u64| i < width implies bit(r, ((i + amount) % width as int) as u64) == #[trigger] bit(value, i) by {
            let t = ((i + amount) % width as int) as u64;
            vstd::arithmetic::div_mod::lemma_add_mod_noop_right(i as int, amount as int, width as int);
            assert(t == (i + a) % w as int);
            if i + a < w {
                vstd::arithmetic::div_mod::lemma_small_mod((i + a) as nat, w as nat);
            } else {
                vstd::arithmetic::div_mod::lemma_mod_add_multiples_vanish(i + a - w, w as int);
                vstd::arithmetic::div_mod::lemma_small_mod((i + a - w) as nat, w as nat);
            }
            lemma_bit_mask(w, t);
            lemma_bit_mask(w, i);
            lemma_bit_and((v << a) | (v >> b), mask, t);
            lemma_bit_or(v << a, v >> b, t);
            lemma_bit_shl(v, a, t);
            lemma_bit_shr(v, b, t);
            lemma_bit_and(value, mask, i);
            if i + a < w {
                if t + b < 64 {
                    lemma_bit_mask(w, (t + b) as u64);
                    lemma_bit_and(value, mask, (t + b) as u64);
                }
            }
        }
        assert forall|i: u64| width <= i < 64 implies !#[trigger] bit(r, i) by {
            lemma_bit_mask(w, i);
            lemma_bit_and((v << a) | (v >> b), mask, i);
        }
    }
    r
}

/// Number of set bits.
pub open spec fn ones(v: u64) -> nat
    decreases v,
{
    if v == 0 {
        0
    } else {
        v as nat % 2 + ones(v / 2)
    }
}

spec fn low8(v: u64) -> u64 {
    ((v & 1) + ((v >> 1) & 1) + ((v >> 2) & 1) + ((v >> 3) & 1) + ((v >> 4) & 1) + ((v >> 5) & 1) + ((v >> 6) & 1) + ((v >> 7) & 1)) as u64
}

proof fn lemma_half(x: u64)
    by (bit_vector)
    ensures
        x >> 1 == x / 2,
        x & 1 == x % 2,
{
}

proof fn lemma_ones_byte(v: u64)
    ensures
        ones(v) == low8(v) + ones(v >> 8),
        low8(v) <= 8,
{
    lemma_half(v);
    lemma_half(v >> 1);
    lemma_half(v >> 2);
    lemma_half(v >> 3);
    lemma_half(v >> 4);
    lemma_half(v >> 5);
    lemma_half(v >> 6);
    lemma_half(v >> 7);
    assert((v >> 1) >> 1 == v >> 2 && (v >> 2) >> 1 == v >> 3 && (v >> 3) >> 1 == v >> 4 && (v >> 4) >> 1 == v >> 5 && (v >> 5) >> 1
        == v >> 6 && (v >> 6) >> 1 == v >> 7 && (v >> 7) >> 1 == v >> 8 && (v & 1) <= 1 && ((v >> 1) & 1) <= 1 && ((v >> 2) & 1) <= 1 && ((v
        >> 3) & 1) <= 1 && ((v >> 4) & 1) <= 1 && ((v >> 5) & 1) <= 1 && ((v >> 6) & 1) <= 1 && ((v >> 7) & 1) <= 1) by (bit_vector);
    assert(ones(v) == v % 2 + ones(v >> 1));
    assert(ones(v >> 1) == (v >> 1) % 2 + ones(v >> 2));
    assert(ones(v >> 2) == (v >> 2) % 2 + ones(v >> 3));
    assert(ones(v >> 3) == (v >> 3) % 2 + ones(v >> 4));
    assert(ones(v >> 4) == (v >> 4) % 2 + ones(v >> 5));
    assert(ones(v >> 5) == (v >> 5) % 2 + ones(v >> 6));
    assert(ones(v >> 6) == (v >> 6) % 2 + ones(v >> 7));
    assert(ones(v >> 7) == (v >> 7) % 2 + ones(v >> 8));
}

/// Number of set bits, by parallel summation.
pub fn popcount64(v: u64) -> (r: u32)
    ensures
        r == ones(v),
{
    let ghost x = v;
    assert(x >= ((x >> 1) & 0x5555555555555555)) by (bit_vector);
    let v1: u64 = v - ((v >> 1) & 0x5555555555555555);
    assert((v1 & 0x3333333333333333) + ((v1 >> 2) & 0x3333333333333333) <= 0xffff_ffff_ffff_ffff) by (bit_vector);
    let v2: u64 = (v1 & 0x3333333333333333) + ((v1 >> 2) & 0x3333333333333333);
    assert(v2 + (v2 >> 4) <= 0xffff_ffff_ffff_ffff) by (bit_vector)
        requires
            v2 == (v1 & 0x3333333333333333) + ((v1 >> 2) & 0x3333333333333333),
    ;
    let nibbles: u64 = v2 + (v2 >> 4);
    let v3: u64 = nibbles & 0x0F0F0F0F0F0F0F0F;
    let m: u64 = v3.wrapping_mul(0x0101010101010101);
    let r: u32 = (m >> 56) as u32;
    proof {
        lemma_ones_byte(x);
        lemma_ones_byte(x >> 8);
        lemma_ones_byte(x >> 16);
        lemma_ones_byte(x >> 24);
        lemma_ones_byte(x >> 32);
        lemma_ones_byte(x >> 40);
        lemma_ones_byte(x >> 48);
        lemma_ones_byte(x >> 56);
        assert((x >> 8) >> 8 == x >> 16 && (x >> 16) >> 8 == x >> 24 && (x >> 24) >> 8 == x >> 32 && (x >> 32) >> 8 == x >> 40 && (x >> 40)
            >> 8 == x >> 48 && (x >> 48) >> 8 == x >> 56 && (x >> 56) >> 8 == 0) by (bit_vector);
        assert(v3 & 0xff == low8(x) && (v3 >> 8) & 0xff == low8(x >> 8) && (v3 >> 16) & 0xff == low8(x >> 16) && (v3 >> 24) & 0xff == low8(
            x >> 24,
        ) && (v3 >> 32) & 0xff == low8(x >> 32) && (v3 >> 40) & 0xff == low8(x >> 40) && (v3 >> 48) & 0xff == low8(x >> 48) && (v3 >> 56)
            & 0xff == low8(x >> 56)) by (bit_vector)
            requires
                v1 == x - ((x >> 1) & 0x5555555555555555),
                v2 == (v1 & 0x3333333333333333) + ((v1 >> 2) & 0x3333333333333333),
                v3 == ((v2 + (v2 >> 4)) as u64) & 0x0F0F0F0F0F0F0F0F,
        ;
        assert((v3 * 0x0101010101010101) as u64 == (v3 * 0x0101010101010101) % 0x1_0000_0000_0000_0000) by (bit_vector);
        assert(((v3 * 0x0101010101010101) as u64) >> 56 == (v3 & 0xff) + ((v3 >> 8) & 0xff) + ((v3 >> 16) & 0xff) + ((v3 >> 24) & 0xff) + ((
        v3 >> 32) & 0xff) + ((v3 >> 40) & 0xff) + ((v3 >> 48) & 0xff) + ((v3 >> 56) & 0xff)) by (bit_vector)
            requires
                v3 == nibbles & 0x0F0F0F0F0F0F0F0F,
                v3 & 0xff <= 8,
                (v3 >> 8) & 0xff <= 8,
                (v3 >> 16) & 0xff <= 8,
                (v3 >> 24) & 0xff <= 8,
                (v3 >> 32) & 0xff <= 8,
                (v3 >> 40) & 0xff <= 8,
                (v3 >> 48) & 0xff <= 8,
                (v3 >> 56) & 0xff <= 8,
        ;
    }
    r
}

/// Number of leading zero bits; 64 for zero.
pub fn clz64(v: u64) -> (n: u32)
    ensures
        v == 0 ==> n == 64,
        v != 0 ==> n < 64 && v >> ((63 - n) as u64) == 1,
{
    if v == 0 {
        return 64;
    }
    let mut n: u32 = 0;
    let mut x: u64 = v;
    if x & 0xFFFFFFFF00000000 == 0 {
        n += 32;
        x = x << 32;
    }
    if x & 0xFFFF000000000000 == 0 {
        n += 16;
        x = x << 16;
    }
    if x & 0xFF00000000000000 == 0 {
        n += 8;
        x = x << 8;
    }
    if x & 0xF000000000000000 == 0 {
        n += 4;
        x = x << 4;
    }
    if x & 0xC000000000000000 == 0 {
        n += 2;
        x = x << 2;
    }
    if x & 0x8000000000000000 == 0 {
        n += 1;
    }
    proof {
        let x0 = v;
        let n1: u64 = if x0 & 0xFFFFFFFF00000000 == 0 { 32 } else { 0 };
        let x1: u64 = if x0 & 0xFFFFFFFF00000000 == 0 { x0 << 32 } else { x0 };
        let n2: u64 = if x1 & 0xFFFF000000000000 == 0 { 16 } else { 0 };
        let x2: u64 = if x1 & 0xFFFF000000000000 == 0 { x1 << 16 } else { x1 };
        let n3: u64 = if x2 & 0xFF00000000000000 == 0 { 8 } else { 0 };
        let x3: u64 = if x2 & 0xFF00000000000000 == 0 { x2 << 8 } else { x2 };
        let n4: u64 = if x3 & 0xF000000000000000 == 0 { 4 } else { 0 };
        let x4: u64 = if x3 & 0xF000000000000000 == 0 { x3 << 4 } else { x3 };
        let n5: u64 = if x4 & 0xC000000000000000 == 0 { 2 } else { 0 };
        let x5: u64 = if x4 & 0xC000000000000000 == 0 { x4 << 2 } else { x4 };
        let n6: u64 = if x5 & 0x8000000000000000 == 0 { 1 } else { 0 };
        let t: u64 = (63 - (n1 + n2 + n3 + n4 + n5 + n6)) as u64;
        assert(v >> t == 1) by (bit_vector)
            requires
                v != 0,
                x0 == v,
                n1 == (if x0 & 0xFFFFFFFF00000000 == 0 { 32u64 } else { 0u64 }),
                x1 == (if x0 & 0xFFFFFFFF00000000 == 0 { x0 << 32 } else { x0 }),
                n2 == (if x1 & 0xFFFF000000000000 == 0 { 16u64 } else { 0u64 }),
                x2 == (if x1 & 0xFFFF000000000000 == 0 { x1 << 16 } else { x1 }),
                n3 == (if x2 & 0xFF00000000000000 == 0 { 8u64 } else { 0u64 }),
                x3 == (if x2 & 0xFF00000000000000 == 0 { x2 << 8 } else { x2 }),
                n4 == (if x3 & 0xF000000000000000 == 0 { 4u64 } else { 0u64 }),
                x4 == (if x3 & 0xF000000000000000 == 0 { x3 << 4 } else { x3 }),
                n5 == (if x4 & 0xC000000000000000 == 0 { 2u64 } else { 0u64 }),
                x5 == (if x4 & 0xC000000000000000 == 0 { x4 << 2 } else { x4 }),
                n6 == (if x5 & 0x8000000000000000 == 0 { 1u64 } else { 0u64 }),
                t == (63 - (n1 + n2 + n3 + n4 + n5 + n6)) as u64,
        ;
    }
    n
}

/// Index of the lowest set bit.
pub fn ffs64(v: u64) -> (r: Option<u32>)
    ensures
        r is None <==> v == 0,
        r matches Some(i) ==> i < 64 && bit(v, i as u64) && (forall|j: u64| j < i ==> !#[trigger] bit(v, j)),
{
    if v == 0 {
        return None;
    }
    let low: u64 = v & (!v).wrapping_add(1);
    proof {
        assert(v != 0 ==> v & ((!v + 1) as u64) != 0) by (bit_vector);
        assert(v != 0 ==> !v + 1 <= 0xffff_ffff_ffff_ffff) by (bit_vector);
    }
    let i: u32 = 63 - clz64(low);
    proof {
        let t = i as u64;
        assert((v >> t) & 1 == 1) by (bit_vector)
            requires
                v != 0,
                low == v & ((!v + 1) as u64),
                t < 64,
                low >> t == 1,
        ;
        assert forall|j: u64| j < i implies !#[trigger] bit(v, j) by {
            assert(!((v >> j) & 1 == 1)) by (bit_vector)
                requires
                    v != 0,
                    low == v & ((!v + 1) as u64),
                    t < 64,
                    low >> t == 1,
                    j < t,
            ;
        }
    }
    Some(i)
}

/// `v` is a power of two.
pub open spec fn is_pow2_u64(v: u64) -> bool {
    exists|n: nat| n < 64 && v == #[trigger] pow2(n)
}

/// `align` is zero or no power of two, so it asks for no alignment.
pub open spec fn no_alignment(align: u64) -> bool {
    !is_pow2_u64(align)
}

/// Shifting one by `n` gives the power of two.
pub proof fn lemma_shl_one(n: u64)
    requires
        n < 64,
    ensures
        1u64 << n == pow2(n as nat),
        0 < pow2(n as nat) <= 0x8000_0000_0000_0000,
{
    lemma2_to64();
    lemma2_to64_rest();
    lemma_pow2_pos(n as nat);
    if n < 63 {
        lemma_pow2_strictly_increases(n as nat, 63);
    }
    assert(1 * pow2(n as nat) == pow2(n as nat));
    lemma_u64_shl_is_mul(1, n);
}

/// Whether `v` is a power of two.
pub fn is_power_of_two(v: u64) -> (b: bool)
    ensures
        b == is_pow2_u64(v),
{
    if v == 0 {
        proof {
            assert forall|n: nat| n < 64 implies v != #[trigger] pow2(n) by {
                lemma_pow2_pos(n);
            }
        }
        return false;
    }
    let n: u32 = clz64(v);
    proof {
        let t = (63 - n) as u64;
        lemma_shl_one(t);
        assert((v & ((v - 1) as u64) == 0) ==> v == 1u64 << t) by (bit_vector)
            requires
                v != 0,
                t < 64,
                v >> t == 1,
        ;
        if is_pow2_u64(v) {
            let k = choose|k: nat| k < 64 && v == #[trigger] pow2(k);
            lemma_shl_one(k as u64);
            let s = k as u64;
            assert((1u64 << s) & (((1u64 << s) - 1) as u64) == 0) by (bit_vector)
                requires
                    s < 64,
            ;
        }
    }
    (v & (v - 1)) == 0
}

/// The greatest multiple of `align` not above `addr`; `addr` itself where `align` is no power of two.
pub fn align_down(addr: u64, align: u64) -> (r: u64)
    ensures
        no_alignment(align) ==> r == addr,
        !no_alignment(align) ==> r == addr - addr % align,
{
    if !is_power_of_two(align) {
        return addr;
    }
    proof {
        lemma_align_mask(addr, align);
    }
    addr & !(align - 1)
}

proof fn lemma_align_mask(addr: u64, align: u64)
    requires
        is_pow2_u64(align),
    ensures
        align > 0,
        addr & !((align - 1) as u64) == addr - addr % align,
        addr & ((align - 1) as u64) == addr % align,
{
    let k = choose|k: nat| k < 64 && align == #[trigger] pow2(k);
    lemma_pow2_pos(k);
    lemma_u64_low_bits_mask_is_mod(addr, k);
    let m = (align - 1) as u64;
    assert((addr & !m) == addr - (addr & m)) by (bit_vector);
    assert(low_bits_mask(k) == m);
}

/// The smallest multiple of `align` not below `addr`; `addr` itself where `align` is no power of two.
pub fn align_up(addr: u64, align: u64) -> (r: u64)
    requires
        !no_alignment(align) ==> addr + align - 1 <= u64::MAX,
    ensures
        no_alignment(align) ==> r == addr,
        !no_alignment(align) ==> addr <= r < addr + align && r % align == 0,
{
    if !is_power_of_two(align) {
        return addr;
    }
    proof {
        lemma_align_mask((addr + align - 1) as u64, align);
        let x = addr + align - 1;
        let a = align as int;
        vstd::arithmetic::div_mod::lemma_fundamental_div_mod(x, a);
        vstd::arithmetic::div_mod::lemma_mod_multiples_basic(x / a, a);
        assert(a * (x / a) == (x / a) * a) by (nonlinear_arith);
    }
    (addr + (align - 1)) & !(align - 1)
}

/// Floor of the base-two logarithm; 0 for 0.
pub fn log2_floor(v: u64) -> (r: u64)
    ensures
        v == 0 ==> r == 0,
        v != 0 ==> r < 64 && pow2(r as nat) <= v < pow2((r + 1) as nat),
{
    if v == 0 {
        return 0;
    }
    let r: u64 = 63 - clz64(v) as u64;
    proof {
        lemma_u64_shr_is_div(v, r);
        lemma_pow2_pos(r as nat);
        lemma_pow2_unfold((r + 1) as nat);
        let p = pow2(r as nat) as int;
        vstd::arithmetic::div_mod::lemma_fundamental_div_mod(v as int, p);
        vstd::arithmetic::div_mod::lemma_mod_bound(v as int, p);
        assert(v as int / p == 1);
        assert(p * 1 == p);
    }
    r
}

/// Whether `addr` starts a block of `2^order` pages below the kernel's half of the address space,
/// for an order the allocator knows.
pub fn verify_page_alignment(addr: u64, order: u64) -> (b: bool)
    requires
        order < 52,
        addr - addr as int % (PAGE_SZ * pow2(order as nat)) + PAGE_SZ * pow2(order as nat) <= u64::MAX,
    ensures
        b == (order < 12 && addr as int % (PAGE_SZ * pow2(order as nat)) == 0 && addr < KERN_BASE),
{
    proof {
        lemma2_to64();
        lemma_pow2_adds(12, order as nat);
        lemma_shl_one((12 + order) as u64);
        lemma_u64_shl_is_mul(PAGE_SZ, order);
        lemma_align_mask(addr, (PAGE_SZ * pow2(order as nat)) as u64);
    }
    let align: u64 = PAGE_SZ << order;
    let mask: u64 = align - 1;
    let aligned = (addr & mask) == 0;
    let in_range = addr < KERN_BASE;
    let valid_order = order < 12;
    let block_start: u64 = addr & !mask;
    let block_end: u64 = block_start + align;
    let cross_check = block_end > block_start;
    aligned && in_range && valid_order && cross_check
}

/// Number of free frames in `slots`.
pub open spec fn free_count(slots: Seq<bool>) -> nat
    decreases slots.len(),
{
    if slots.len() == 0 {
        0
    } else {
        free_count(slots.drop_last()) + (if slots.last() { 1nat } else { 0nat })
    }
}

/// Surveys the frame bitmap and returns how many frames are free; the bitmap stays as it is.
pub fn defragment_frame_pool(slots: &mut Vec<bool>) -> (n: usize)
    ensures
        n == free_count(old(slots)@),
        final(slots)@ == old(slots)@,
{
    let mut n: usize = 0;
    let mut i: usize = 0;
    while i < slots.len()
        invariant
            slots@ == old(slots)@,
            i <= slots@.len(),
            n <= i,
            n == free_count(slots@.take(i as int)),
        decreases slots@.len() - i,
    {
        if slots[i] {
            n += 1;
        }
        i += 1;
        assert(slots@.take(i as int).drop_last() =~= slots@.take(i - 1));
    }
    assert(slots@.take(i as int) =~= slots@);
    n
}

/// `v` read as a signed number.
pub open spec fn signed(v: u64) -> int {
    if v < 0x8000_0000_0000_0000 {
        v as int
    } else {
        v - 0x1_0000_0000_0000_0000
    }
}

/// `v` read as an unsigned number.
pub open spec fn unsigned(v: int) -> u64 {
    if v >= 0 {
        v as u64
    } else {
        (v + 0x1_0000_0000_0000_0000) as u64
    }
}

/// `v` read as a signed number.
pub fn to_signed(v: u64) -> (r: i64)
    ensures
        r == signed(v),
{
    if v < 0x8000_0000_0000_0000 {
        v as i64
    } else {
        -1 - (u64::MAX - v) as i64
    }
}

/// `v` read as an unsigned number.
pub fn to_unsigned(v: i64) -> (r: u64)
    ensures
        r == unsigned(v as int),
{
    if v >= 0 {
        v as u64
    } else {
        u64::MAX - (-1 - v) as u64
    }
}

/// Reading a number as signed and back as unsigned gives the same number.
pub proof fn law_signed_round_trip(v: u64)
    ensures
        i64::MIN <= signed(v) <= i64::MAX,
        unsigned(signed(v)) == v,
        v <= i64::MAX <==> signed(v) == v,
{
}

/// A pattern occurs where its bytes are, one after the other.
pub proof fn law_pattern_occurs(data: Seq<u8>, pat: Seq<u8>, at: int)
    ensures
        occurs_at(data, pat, at) <==> 0 <= at && at + pat.len() <= data.len() && forall|i: int|
            0 <= i < pat.len() ==> #[trigger] pat[i] == data[at + i],
{
    if 0 <= at && at + pat.len() <= data.len() {
        let s = data.subrange(at, at + pat.len());
        if forall|i: int| 0 <= i < pat.len() ==> #[trigger] pat[i] == data[at + i] {
            assert(s =~= pat);
        }
        if s == pat {
            assert forall|i: int| 0 <= i < pat.len() implies #[trigger] pat[i] == data[at + i] by {
                assert(s[i] == data[at + i]);
            }
        }
    }
}

/// Shifting a number up keeps its ones, a one put behind it is one more, and there are never more than
/// there is room for.
pub proof fn law_ones_are_counted(v: u64)
    requires
        v < 0x8000_0000_0000_0000,
    ensures
        ones((2 * v) as u64) == ones(v),
        ones((2 * v + 1) as u64) == ones(v) + 1,
        ones(v) <= v,
    decreases v,
{
    if v > 0 {
        law_ones_are_counted(v / 2);
    }
}

} // verus!
