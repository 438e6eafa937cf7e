use tintbox::formatters::{
    pack_3_bytes, pack_3_words, pack_4_bytes, pack_4_words, pack_chunky_bytes, pack_chunky_words,
    unroll_1_byte, unroll_1_byte_reversed, unroll_1_byte_skip1, unroll_1_word,
    unroll_1_word_reversed, unroll_3_bytes, unroll_3_words, unroll_4_bytes, unroll_4_words,
    unroll_any_words, unroll_chunky_bytes, MAX_CHANNELS,
};

#[test]
fn fixed_unpackers() {
    let mut v = [7u16; MAX_CHANNELS];
    assert_eq!(unroll_1_byte(&[0x80], &mut v), 1);
    assert_eq!(&v[..4], &[0x8080, 0x8080, 0x8080, 7]);
    assert_eq!(unroll_1_byte_reversed(&[0x00], &mut v), 1);
    assert_eq!(v[0], 0xFFFF);
    assert_eq!(unroll_1_byte_skip1(&[0x01, 0xEE], &mut v), 2);
    assert_eq!(v[2], 0x0101);
    assert_eq!(unroll_1_word(&[0x34, 0x12], &mut v), 2);
    assert_eq!(v[1], 0x1234);
    assert_eq!(unroll_1_word_reversed(&[0x34, 0x12], &mut v), 2);
    assert_eq!(v[1], 0xFFFF - 0x1234);
    assert_eq!(unroll_3_bytes(&[1, 2, 3], &mut v), 3);
    assert_eq!(&v[..3], &[0x0101, 0x0202, 0x0303]);
    assert_eq!(unroll_4_bytes(&[1, 2, 3, 4], &mut v), 4);
    assert_eq!(v[3], 0x0404);
    assert_eq!(unroll_3_words(&[1, 0, 2, 0, 3, 0], &mut v), 6);
    assert_eq!(&v[..3], &[1, 2, 3]);
    assert_eq!(unroll_4_words(&[1, 0, 2, 0, 3, 0, 0, 1], &mut v), 8);
    assert_eq!(v[3], 0x0100);
}

#[test]
fn fixed_packers() {
    let mut v = [0u16; MAX_CHANNELS];
    v[0] = 0x0101;
    v[1] = 0xFFFF;
    v[2] = 0x7F80;
    v[3] = 0x1234;
    let mut out = [0u8; 8];
    assert_eq!(pack_3_bytes(&v, &mut out), 3);
    assert_eq!(&out[..3], &[1, 255, 0x7F]);
    assert_eq!(pack_4_bytes(&v, &mut out), 4);
    assert_eq!(out[3], 0x12);
    assert_eq!(pack_3_words(&v, &mut out), 6);
    assert_eq!(&out[..6], &[1, 1, 0xFF, 0xFF, 0x80, 0x7F]);
    assert_eq!(pack_4_words(&v, &mut out), 8);
    assert_eq!(&out[6..8], &[0x34, 0x12]);
}

#[test]
fn chunky_bytes_swap_and_extra() {
    let mut v = [0u16; MAX_CHANNELS];
    // BGRA-like: do_swap and swap_first with one extra byte.
    let n = unroll_chunky_bytes(3, 1, true, true, false, &[1, 2, 3, 9], &mut v);
    assert_eq!(n, 4);
    assert_eq!(&v[..3], &[0x0303, 0x0202, 0x0101]);
    // ARGB-like: swap_first with an extra byte in front.
    let n = unroll_chunky_bytes(3, 1, false, true, false, &[9, 1, 2, 3], &mut v);
    assert_eq!(n, 4);
    assert_eq!(&v[..3], &[0x0101, 0x0202, 0x0303]);
    // No extra, swap_first: rotate.
    let n = unroll_chunky_bytes(3, 0, false, true, true, &[0, 1, 2], &mut v);
    assert_eq!(n, 3);
    assert_eq!(&v[..3], &[0xFEFE, 0xFDFD, 0xFFFF]);
}

#[test]
fn chunky_round_trips() {
    let accum = [10u8, 20, 30, 40, 50];
    for &(n, extra, do_swap, swap_first, reverse) in &[
        (3usize, 0usize, false, false, false),
        (3, 1, true, false, true),
        (4, 0, false, true, false),
        (2, 0, true, true, true),
        (3, 2, false, true, false),
    ] {
        let mut v = [0u16; MAX_CHANNELS];
        let used = unroll_chunky_bytes(n, extra, do_swap, swap_first, reverse, &accum, &mut v);
        let mut out = accum;
        let wrote = pack_chunky_bytes(n, extra, do_swap, swap_first, reverse, &v, &mut out);
        assert_eq!(used, wrote);
        assert_eq!(out, accum);
    }
}

#[test]
fn word_round_trips() {
    let accum = [1u8, 2, 3, 4, 5, 6, 7, 8, 9, 10];
    for &(n, extra, do_swap, swap_first, reverse, swap_endian) in &[
        (3usize, 0usize, false, false, false, false),
        (3, 1, true, false, true, true),
        (4, 0, false, true, false, true),
        (2, 0, true, true, true, false),
    ] {
        let mut v = [0u16; MAX_CHANNELS];
        let used = unroll_any_words(n, extra, do_swap, swap_first, reverse, swap_endian, &accum, &mut v);
        let mut out = accum;
        let wrote = pack_chunky_words(n, extra, do_swap, swap_first, reverse, swap_endian, &v, &mut out);
        assert_eq!(used, wrote);
        assert_eq!(out, accum);
    }
}

#[test]
fn both_swaps_rotate_without_round_trip() {
    // With do_swap and swap_first and no extra sample, three channels do not
    // come back in the same order.
    let accum = [1u8, 2, 3];
    let mut v = [0u16; MAX_CHANNELS];
    unroll_chunky_bytes(3, 0, true, true, false, &accum, &mut v);
    let mut out = accum;
    pack_chunky_bytes(3, 0, true, true, false, &v, &mut out);
    assert_eq!(out, [2, 3, 1]);
}
