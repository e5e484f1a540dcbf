use kernel::{
    align_down, align_up, bitwise_merge, clz64, compute_crc32, decode_varint,
    defragment_frame_pool, encode_varint, ffs64, hash_combine, is_power_of_two, log2_floor,
    mem_scan_pattern, murmurhash3_finalize, popcount64, rotate_bits, to_signed, to_unsigned,
    verify_page_alignment,
};

#[test]
fn pattern_is_found_with_overlaps() {
    assert_eq!(mem_scan_pattern(b"aaaa", b"aa", 10), vec![0, 1, 2]);
    assert_eq!(mem_scan_pattern(b"abcabcabc", b"abc", 2), vec![0, 3]);
    assert_eq!(mem_scan_pattern(b"abc", b"abcd", 5), Vec::<usize>::new());
    assert_eq!(mem_scan_pattern(b"abc", b"", 5), Vec::<usize>::new());
    assert_eq!(mem_scan_pattern(b"xaabaabaaa", b"aabaaa", 5), vec![4]);
}

#[test]
fn crc_of_the_check_string() {
    assert_eq!(compute_crc32(b"123456789"), 0xCBF4_3926);
    assert_eq!(compute_crc32(b""), 0);
}

#[test]
fn finalizer_and_combiner_are_exact() {
    assert_eq!(murmurhash3_finalize(0), 0);
    assert_eq!(murmurhash3_finalize(1), 0xB456_BCFC_34C2_CB2C);
    assert_eq!(hash_combine(0, 1), 0x9e37_79b9_7f4a_7c15);
    assert_eq!(hash_combine(4, 0), 4 ^ (256 + 1));
}

#[test]
fn varints_round_trip() {
    for v in [0u64, 1, 127, 128, 300, 16383, 16384, u64::MAX - 1, u64::MAX] {
        let mut out = vec![9u8];
        let n = encode_varint(v, &mut out);
        assert_eq!(n + 1, out.len());
        assert_eq!(decode_varint(&out[1..]), Some((v, n)));
    }
    let mut out = Vec::new();
    assert_eq!(encode_varint(300, &mut out), 2);
    assert_eq!(out, vec![0xAC, 0x02]);
}

#[test]
fn unfinished_varint_is_refused() {
    assert_eq!(decode_varint(&[]), None);
    assert_eq!(decode_varint(&[0x80, 0x80]), None);
}

#[test]
fn merging_and_rotating() {
    assert_eq!(bitwise_merge(0xFF00, 0x00FF, 0x0F0F), 0xF00F);
    assert_eq!(rotate_bits(0b1001, 1, 4), 0b0011);
    assert_eq!(rotate_bits(1, 63, 64), 1 << 63);
}

#[test]
fn counting_bits() {
    assert_eq!(popcount64(0), 0);
    assert_eq!(popcount64(u64::MAX), 64);
    assert_eq!(popcount64(0b1011), 3);
    assert_eq!(clz64(0), 64);
    assert_eq!(clz64(1), 63);
    assert_eq!(clz64(u64::MAX), 0);
    assert_eq!(ffs64(0), None);
    assert_eq!(ffs64(0b1000), Some(3));
}

#[test]
fn powers_and_alignment() {
    assert!(is_power_of_two(1));
    assert!(is_power_of_two(1 << 40));
    assert!(!is_power_of_two(0));
    assert!(!is_power_of_two(12));
    assert_eq!(align_down(4097, 4096), 4096);
    assert_eq!(align_up(4097, 4096), 8192);
    assert_eq!(align_up(4096, 4096), 4096);
    assert_eq!(align_up(u64::MAX - 4095, 4096), u64::MAX - 4095);
    assert_eq!(log2_floor(1), 0);
    assert_eq!(log2_floor(1023), 9);
    assert!(verify_page_alignment(0x4000, 2));
    assert!(!verify_page_alignment(0x1000, 1));
}

#[test]
fn signed_and_unsigned_views() {
    assert_eq!(to_signed(u64::MAX), -1);
    assert_eq!(to_signed(5), 5);
    assert_eq!(to_signed(1 << 63), i64::MIN);
    assert_eq!(to_unsigned(-1), u64::MAX);
    assert_eq!(to_unsigned(i64::MIN), 1 << 63);
}

#[test]
fn defragmenting_keeps_the_pool() {
    let mut slots = vec![true, false, true, true, false];
    let before = slots.clone();
    defragment_frame_pool(&mut slots);
    assert_eq!(slots, before);
}
