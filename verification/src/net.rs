//! Internet headers and checksums.

use vstd::prelude::*;

verus! {

/// The states of a TCP connection.
#[derive(Clone, Copy, PartialEq, Eq, Structural, Debug)]
pub enum SocketState {
    /// No connection.
    Closed,
    /// Waiting for a request.
    Listen,
    /// A request has been sent.
    SynSent,
    /// A request has been received.
    SynRecvd,
    /// Data can be sent and received.
    Established,
    /// Closed here; the other side has not answered.
    FinWait1,
    /// Closed here and answered; the other side has not closed.
    FinWait2,
    /// Waiting until the other side surely has the last answer.
    TimeWait,
    /// The other side has closed.
    CloseWait,
    /// The other side has closed, then this one; the last answer is missing.
    LastAck,
    /// Both sides closed at once.
    Closing,
}

/// The 16-bit number at `at`, high byte first.
pub open spec fn pair_at(d: Seq<u8>, at: int) -> int {
    d[at] * 0x100 + d[at + 1]
}

/// The 32-bit number at `at`, high byte first.
pub open spec fn addr_at(d: Seq<u8>, at: int) -> int {
    pair_at(d, at) * 0x1_0000 + pair_at(d, at + 2)
}

/// The sum of the 16-bit numbers that `d` is made of; a last single byte is a high one.
pub open spec fn pair_sum(d: Seq<u8>) -> int
    decreases d.len(),
{
    if d.len() == 0 {
        0
    } else if d.len() == 1 {
        d[0] * 0x100
    } else {
        pair_at(d, 0) + pair_sum(d.skip(2))
    }
}

/// `s` with what is above its low 16 bits added to them, until nothing is.
pub open spec fn folded(s: int) -> int
    decreases s,
{
    if s <= 0xffff {
        s
    } else {
        folded(s % 0x1_0000 + s / 0x1_0000)
    }
}

/// The ones' complement of the folded sum.
pub open spec fn checksum(s: int) -> int {
    0xffff - folded(s)
}

/// What the pseudo header of a TCP segment adds to the sum.
pub open spec fn pseudo_sum(src: u32, dst: u32, len: int) -> int {
    src as int / 0x1_0000 + src as int % 0x1_0000 + dst as int / 0x1_0000 + dst as int % 0x1_0000 + 6 + len % 0x1_0000_0000
}

/// The bytes of an address, high byte first.
pub open spec fn addr_bytes(a: u32) -> Seq<u8> {
    seq![
        (a as int / 0x100_0000) as u8,
        (a as int / 0x1_0000 % 0x100) as u8,
        (a as int / 0x100 % 0x100) as u8,
        (a as int % 0x100) as u8,
    ]
}

/// The pseudo header: both addresses, a zero, the protocol and the length.
pub open spec fn pseudo_header(src: u32, dst: u32, proto: u8, length: u16) -> Seq<u8> {
    addr_bytes(src) + addr_bytes(dst) + seq![0u8, proto, (length as int / 0x100) as u8, (length as int % 0x100) as u8]
}

/// The header starts an IPv4 packet and is complete.
pub open spec fn ipv4_ok(p: Seq<u8>) -> bool {
    &&& p.len() >= 20
    &&& p[0] as int / 16 == 4
    &&& p[0] % 16 >= 5
    &&& p.len() >= p[0] % 16 * 4
}

proof fn lemma_pair_sum_bounds(d: Seq<u8>)
    ensures
        0 <= pair_sum(d),
    decreases d.len(),
{
    if d.len() >= 2 {
        lemma_pair_sum_bounds(d.skip(2));
    }
}

/// Adds the pairs of `d` to `start`.
fn add_pairs(d: &[u8], start: u32) -> (sum: u32)
    requires
        start + pair_sum(d@) <= u32::MAX,
    ensures
        sum == start + pair_sum(d@),
{
    let n = d.len();
    let mut sum: u32 = start;
    let mut i: usize = 0;
    assert(d@.skip(0) =~= d@);
    while n - i >= 2
        invariant
            n == d@.len(),
            i <= n,
            start + pair_sum(d@) <= u32::MAX,
            sum + pair_sum(d@.skip(i as int)) == start + pair_sum(d@),
        decreases n - i,
    {
        proof {
            lemma_pair_sum_bounds(d@.skip(i as int).skip(2));
            assert(d@.skip(i as int).skip(2) =~= d@.skip(i + 2));
            assert(d@.skip(i as int)[0] == d@[i as int]);
            assert(d@.skip(i as int)[1] == d@[i + 1]);
        }
        sum = sum + (d[i] as u32 * 0x100 + d[i + 1] as u32);
        i += 2;
    }
    if i < n {
        assert(d@.skip(i as int)[0] == d@[i as int]);
        sum = sum + d[i] as u32 * 0x100;
    }
    sum
}

fn fold(s: u32) -> (r: u16)
    ensures
        r == folded(s as int),
{
    let mut sum: u32 = s;
    while sum > 0xffff
        invariant
            folded(sum as int) == folded(s as int),
        decreases sum,
    {
        sum = sum % 0x1_0000 + sum / 0x1_0000;
    }
    sum as u16
}

/// The checksum of a TCP segment with its pseudo header.
pub fn tcp_checksum(src_ip: u32, dst_ip: u32, payload: &[u8]) -> (c: u16)
    requires
        pseudo_sum(src_ip, dst_ip, payload@.len() as int) + pair_sum(payload@) <= u32::MAX,
    ensures
        c == checksum(pseudo_sum(src_ip, dst_ip, payload@.len() as int) + pair_sum(payload@)),
{
    proof {
        lemma_pair_sum_bounds(payload@);
    }
    let len: u32 = (payload.len() as u64 % 0x1_0000_0000) as u32;
    let start: u32 = src_ip / 0x1_0000 + src_ip % 0x1_0000 + dst_ip / 0x1_0000 + dst_ip % 0x1_0000 + 6 + len;
    let sum: u32 = add_pairs(payload, start);
    0xffff - fold(sum)
}

/// Reads the addresses, the protocol and the total length out of an IPv4 header.
pub fn parse_ipv4_header(pkt: &[u8]) -> (r: Option<(u32, u32, u8, u16)>)
    ensures
        r is Some <==> ipv4_ok(pkt@),
        r matches Some(h) ==> {
            &&& h.0 == addr_at(pkt@, 12)
            &&& h.1 == addr_at(pkt@, 16)
            &&& h.2 == pkt@[9]
            &&& h.3 == pair_at(pkt@, 2)
        },
{
    let n = pkt.len();
    if n < 20 {
        return None;
    }
    if pkt[0] / 16 != 4 {
        return None;
    }
    let ihl: usize = (pkt[0] % 16) as usize;
    if ihl < 5 || n < ihl * 4 {
        return None;
    }
    let total_len: u16 = pkt[2] as u16 * 0x100 + pkt[3] as u16;
    let src: u32 = (pkt[12] as u32 * 0x100 + pkt[13] as u32) * 0x1_0000 + (pkt[14] as u32 * 0x100 + pkt[15] as u32);
    let dst: u32 = (pkt[16] as u32 * 0x100 + pkt[17] as u32) * 0x1_0000 + (pkt[18] as u32 * 0x100 + pkt[19] as u32);
    Some((src, dst, pkt[9], total_len))
}

/// Builds the pseudo header of a TCP or UDP segment.
pub fn build_pseudo_header(src: u32, dst: u32, proto: u8, length: u16) -> (h: Vec<u8>)
    ensures
        h@ == pseudo_header(src, dst, proto, length),
{
    let mut h: Vec<u8> = Vec::new();
    h.push((src / 0x100_0000) as u8);
    h.push((src / 0x1_0000 % 0x100) as u8);
    h.push((src / 0x100 % 0x100) as u8);
    h.push((src % 0x100) as u8);
    h.push((dst / 0x100_0000) as u8);
    h.push((dst / 0x1_0000 % 0x100) as u8);
    h.push((dst / 0x100 % 0x100) as u8);
    h.push((dst % 0x100) as u8);
    h.push(0);
    h.push(proto);
    h.push((length / 0x100) as u8);
    h.push((length % 0x100) as u8);
    assert(h@ =~= pseudo_header(src, dst, proto, length));
    h
}

/// The internet checksum of `data`.
pub fn compute_inet_checksum(data: &[u8]) -> (c: u16)
    requires
        pair_sum(data@) <= u32::MAX,
    ensures
        c == checksum(pair_sum(data@)),
{
    let sum: u32 = add_pairs(data, 0);
    0xffff - fold(sum)
}

proof fn lemma_folded(s: int)
    requires
        s >= 0,
    ensures
        0 <= folded(s) <= 0xffff,
        folded(s) % 0xffff == s % 0xffff,
        s > 0 <==> folded(s) > 0,
    decreases s,
{
    if s > 0xffff {
        let t = s % 0x1_0000 + s / 0x1_0000;
        lemma_folded(t);
        assert(s == t + 0xffff * (s / 0x1_0000));
        vstd::arithmetic::div_mod::lemma_mod_multiples_vanish(s / 0x1_0000, t, 0xffff);
    }
}

proof fn lemma_pair_sum_push(d: Seq<u8>, hi: u8, lo: u8)
    requires
        d.len() % 2 == 0,
    ensures
        pair_sum(d + seq![hi, lo]) == pair_sum(d) + hi * 0x100 + lo,
    decreases d.len(),
{
    let e = d + seq![hi, lo];
    if d.len() == 0 {
        assert(e =~= seq![hi, lo]);
        assert(e.skip(2) =~= Seq::<u8>::empty());
        assert(pair_sum(e.skip(2)) == 0);
    } else {
        lemma_pair_sum_push(d.skip(2), hi, lo);
        assert(e.skip(2) =~= d.skip(2) + seq![hi, lo]);
    }
}

/// Data with its checksum behind it has the checksum 0.
pub proof fn law_checksum_verifies(d: Seq<u8>)
    requires
        d.len() % 2 == 0,
    ensures
        ({
            let c = checksum(pair_sum(d));
            let sealed = d + seq![(c / 0x100) as u8, (c % 0x100) as u8];
            checksum(pair_sum(sealed)) == 0
        }),
{
    let c = checksum(pair_sum(d));
    lemma_pair_sum_bounds(d);
    lemma_folded(pair_sum(d));
    let hi = (c / 0x100) as u8;
    let lo = (c % 0x100) as u8;
    lemma_pair_sum_push(d, hi, lo);
    let t = pair_sum(d) + c;
    assert(pair_sum(d + seq![hi, lo]) == t);
    lemma_folded(t);
    assert(t % 0xffff == 0) by {
        let s = pair_sum(d);
        let f = folded(s);
        assert(s % 0xffff == f % 0xffff);
        assert(t == s + 0xffff - f);
    }
}

proof fn lemma_addr_bytes(a: u32)
    ensures
        pair_at(addr_bytes(a), 0) == a as int / 0x1_0000,
        pair_at(addr_bytes(a), 2) == a as int % 0x1_0000,
{
}

/// The pseudo header that is built adds to a sum what the checksum takes for it.
pub proof fn law_pseudo_header_sum(src: u32, dst: u32, length: u16)
    ensures
        pair_sum(pseudo_header(src, dst, 6, length)) == pseudo_sum(src, dst, length as int),
{
    let h = pseudo_header(src, dst, 6, length);
    let h0 = Seq::<u8>::empty();
    let h1 = h0 + seq![h[0], h[1]];
    let h2 = h1 + seq![h[2], h[3]];
    let h3 = h2 + seq![h[4], h[5]];
    let h4 = h3 + seq![h[6], h[7]];
    let h5 = h4 + seq![h[8], h[9]];
    let h6 = h5 + seq![h[10], h[11]];
    lemma_pair_sum_push(h0, h[0], h[1]);
    lemma_pair_sum_push(h1, h[2], h[3]);
    lemma_pair_sum_push(h2, h[4], h[5]);
    lemma_pair_sum_push(h3, h[6], h[7]);
    lemma_pair_sum_push(h4, h[8], h[9]);
    lemma_pair_sum_push(h5, h[10], h[11]);
    assert(h6 =~= h);
    lemma_addr_bytes(src);
    lemma_addr_bytes(dst);
    let length = length as int;
    assert(length / 0x100 * 0x100 + length % 0x100 == length);
}

/// An address that is written as bytes is read back, and so it is from a header.
pub proof fn law_address_round_trip(a: u32, b: u32, proto: u8, length: u16)
    ensures
        addr_at(addr_bytes(a), 0) == a,
        addr_at(pseudo_header(a, b, proto, length), 0) == a,
        addr_at(pseudo_header(a, b, proto, length), 4) == b,
        pseudo_header(a, b, proto, length)[9] == proto,
        pair_at(pseudo_header(a, b, proto, length), 10) == length,
        pseudo_header(a, b, proto, length).len() == 12,
{
    let h = pseudo_header(a, b, proto, length);
    assert(h.len() == 12);
    assert(h[0] == addr_bytes(a)[0] && h[1] == addr_bytes(a)[1] && h[2] == addr_bytes(a)[2] && h[3] == addr_bytes(a)[3]);
    assert(h[4] == addr_bytes(b)[0] && h[5] == addr_bytes(b)[1] && h[6] == addr_bytes(b)[2] && h[7] == addr_bytes(b)[3]);
}

/// A packet of the fourth version with a header without options is read as one, one that is too short
/// or of another version is not, and its two addresses are the bytes at their places, the highest first.
pub proof fn law_headers_are_read(p: Seq<u8>)
    ensures
        p.len() >= 20 && p[0] == 0x45 ==> ipv4_ok(p),
        p.len() < 20 ==> !ipv4_ok(p),
        p[0] < 0x40 || p[0] >= 0x50 ==> !ipv4_ok(p),
        p.len() >= 20 ==> addr_at(p, 12) == p[12] * 0x100_0000 + p[13] * 0x1_0000 + p[14] * 0x100 + p[15],
{
}

} // verus!
