//! Pixel unpackers and packers in the 16-bit domain: bytes of a chunky
//! buffer to a `[u16; 16]` value array and back.

use vstd::prelude::*;

verus! {

/// The number of value slots a formatter works on.
pub const MAX_CHANNELS: usize = 16;

// ------------------------------------------------------------ samples

/// An 8-bit sample widened to 16 bits (`x * 257`).
pub open spec fn w8(b: u8) -> u16 {
    (b as int * 257) as u16
}

/// A 16-bit sample narrowed to 8 bits, rounding (`(x * 65281 + 2^23) >> 24`).
pub open spec fn b16(v: u16) -> u8 {
    ((v as int * 65281 + 0x80_0000) / 0x100_0000) as u8
}

/// The reversed flavor of a sample.
pub open spec fn rev16(v: u16) -> u16 {
    (0xffff - v) as u16
}

/// A sample with its two bytes swapped.
pub open spec fn swap16(v: u16) -> u16 {
    ((v % 256) * 256 + v / 256) as u16
}

/// The little-endian 16-bit value at `i`.
pub open spec fn le16(b: Seq<u8>, i: int) -> u16 {
    (b[i] as int + b[i + 1] as int * 256) as u16
}

/// The value slot sample `i` of `n` lands in.
pub open spec fn chan(n: int, do_swap: bool, i: int) -> int {
    if do_swap {
        n - 1 - i
    } else {
        i
    }
}

/// How many extra samples come before the color samples.
pub open spec fn lead(extra: int, do_swap: bool, swap_first: bool) -> int {
    if do_swap != swap_first {
        extra
    } else {
        0
    }
}

pub open spec fn maybe_rev(v: u16, reverse: bool) -> u16 {
    if reverse {
        rev16(v)
    } else {
        v
    }
}

pub open spec fn maybe_swap(v: u16, swap: bool) -> u16 {
    if swap {
        swap16(v)
    } else {
        v
    }
}

/// Slot `k` after the values of `n` slots are rotated down by one when
/// `rot` holds (the first value moves to the last slot).
pub open spec fn rotate_slot(pre: spec_fn(int) -> u16, n: int, rot: bool, k: int) -> u16 {
    if rot && 0 <= k < n {
        if k < n - 1 {
            pre(k + 1)
        } else {
            pre(0)
        }
    } else {
        pre(k)
    }
}

/// The values an unpacker leaves, given the sample of each color channel.
pub open spec fn unrolled(
    sample: spec_fn(int) -> u16,
    n: int,
    do_swap: bool,
    rot: bool,
    old: Seq<u16>,
) -> Seq<u16> {
    Seq::new(
        16,
        |k: int|
            rotate_slot(
                |m: int|
                    if 0 <= m < n {
                        sample(chan(n, do_swap, m))
                    } else {
                        old[m]
                    },
                n,
                rot,
                k,
            ),
    )
}

/// The value slots after unpacking chunky byte samples.
pub open spec fn unroll_bytes_spec(
    n: int,
    extra: int,
    do_swap: bool,
    swap_first: bool,
    reverse: bool,
    accum: Seq<u8>,
    old: Seq<u16>,
) -> Seq<u16> {
    unrolled(
        |i: int| maybe_rev(w8(accum[lead(extra, do_swap, swap_first) + i]), reverse),
        n,
        do_swap,
        extra == 0 && swap_first,
        old,
    )
}

/// The value slots after unpacking chunky little-endian 16-bit samples.
pub open spec fn unroll_words_spec(
    n: int,
    extra: int,
    do_swap: bool,
    swap_first: bool,
    reverse: bool,
    swap_endian: bool,
    accum: Seq<u8>,
    old: Seq<u16>,
) -> Seq<u16> {
    unrolled(
        |i: int|
            maybe_rev(
                maybe_swap(le16(accum, 2 * (lead(extra, do_swap, swap_first) + i)), swap_endian),
                reverse,
            ),
        n,
        do_swap,
        extra == 0 && swap_first,
        old,
    )
}

/// The byte a packer writes for color sample `i`.
pub open spec fn packed_byte(values: Seq<u16>, n: int, do_swap: bool, reverse: bool, i: int) -> u8 {
    b16(maybe_rev(values[chan(n, do_swap, i)], reverse))
}

/// What the output holds afterwards; the extra samples'
/// bytes are left as they were.
pub open spec fn pack_bytes_spec(
    n: int,
    extra: int,
    do_swap: bool,
    swap_first: bool,
    reverse: bool,
    values: Seq<u16>,
    out: Seq<u8>,
) -> Seq<u8> {
    let off = lead(extra, do_swap, swap_first);
    let rot = extra == 0 && swap_first;
    Seq::new(
        out.len(),
        |p: int|
            if rot && 0 <= p < n {
                if p == 0 {
                    packed_byte(values, n, do_swap, reverse, n - 1)
                } else {
                    packed_byte(values, n, do_swap, reverse, p - 1)
                }
            } else if off <= p < off + n {
                packed_byte(values, n, do_swap, reverse, p - off)
            } else {
                out[p]
            },
    )
}

/// The word a packer writes for color sample `i`.
pub open spec fn packed_word(
    values: Seq<u16>,
    n: int,
    do_swap: bool,
    reverse: bool,
    swap_endian: bool,
    i: int,
) -> u16 {
    maybe_rev(maybe_swap(values[chan(n, do_swap, i)], swap_endian), reverse)
}

/// Byte `p` of a run of little-endian words, each given by `w`.
pub open spec fn word_byte(w: u16, p: int) -> u8 {
    if p % 2 == 0 {
        (w % 256) as u8
    } else {
        (w / 256) as u8
    }
}

/// What the output holds afterwards.
pub open spec fn pack_words_spec(
    n: int,
    extra: int,
    do_swap: bool,
    swap_first: bool,
    reverse: bool,
    swap_endian: bool,
    values: Seq<u16>,
    out: Seq<u8>,
) -> Seq<u8> {
    let off = 2 * lead(extra, do_swap, swap_first);
    let rot = extra == 0 && swap_first;
    Seq::new(
        out.len(),
        |p: int|
            if rot && 0 <= p < 2 * n {
                if p < 2 {
                    word_byte(packed_word(values, n, do_swap, reverse, swap_endian, n - 1), p)
                } else {
                    word_byte(packed_word(values, n, do_swap, reverse, swap_endian, p / 2 - 1), p)
                }
            } else if off <= p < off + 2 * n {
                word_byte(packed_word(values, n, do_swap, reverse, swap_endian, (p - off) / 2), p)
            } else {
                out[p]
            },
    )
}

// ------------------------------------------------------------ primitives

/// `FROM_8_TO_16`.
pub(crate) fn from_8_to_16(b: u8) -> (r: u16)
    ensures
        r == w8(b),
{
    (b as u16) * 257
}

/// `FROM_16_TO_8`.
fn from_16_to_8(v: u16) -> (r: u8)
    ensures
        r == b16(v),
{
    assert(v as int * 65281 + 0x80_0000 < 0x1_0000_0000) by (nonlinear_arith)
        requires
            v <= 0xffff,
    ;
    assert((v as int * 65281 + 0x80_0000) / 0x100_0000 < 256);
    (((v as u32) * 65281 + 0x80_0000) / 0x100_0000) as u8
}

/// `REVERSE_FLAVOR_16`.
fn reverse_flavor_16(v: u16) -> (r: u16)
    ensures
        r == rev16(v),
{
    0xffff - v
}

/// `CHANGE_ENDIAN`.
fn change_endian(v: u16) -> (r: u16)
    ensures
        r == swap16(v),
{
    (v % 256) * 256 + v / 256
}

fn read_u16_le(b: &[u8], i: usize) -> (r: u16)
    requires
        i + 1 < b@.len(),
    ensures
        r == le16(b@, i as int),
{
    (b[i] as u16) + (b[i + 1] as u16) * 256
}

fn write_u16_le(b: &mut [u8], i: usize, v: u16)
    requires
        i + 1 < old(b)@.len(),
    ensures
        final(b)@ == old(b)@.update(i as int, (v % 256) as u8).update(i + 1, (v / 256) as u8),
{
    let n = b.len();
    assert(i + 1 < n);
    b[i] = (v % 256) as u8;
    b[i + 1] = (v / 256) as u8;
}

// ------------------------------------------------------------ laws

/// Widening a byte and narrowing it again gives the byte back.
pub proof fn lemma_w8_b16(b: u8)
    ensures
        b16(w8(b)) == b,
{
    assert((b as int * 257) * 65281 + 0x80_0000 == b as int * 0x100_0000 + b as int + 0x80_0000)
        by (nonlinear_arith);
    assert((b as int * 0x100_0000 + b as int + 0x80_0000) / 0x100_0000 == b as int) by (nonlinear_arith)
        requires
            0 <= b <= 255,
    ;
}

/// Reversing twice, or swapping bytes twice, is the identity; and the two
/// commute.
pub proof fn lemma_rev_swap(v: u16)
    ensures
        rev16(rev16(v)) == v,
        swap16(swap16(v)) == v,
        swap16(rev16(v)) == rev16(swap16(v)),
{
    let lo = v % 256;
    let hi = v / 256;
    assert(v == hi * 256 + lo);
    let s = swap16(v);
    assert(s == lo * 256 + hi);
    assert(s % 256 == hi && s / 256 == lo);
    let r = rev16(v);
    assert(r == (255 - hi) * 256 + (255 - lo));
    assert(r % 256 == 255 - lo && r / 256 == 255 - hi);
}

/// Reversing a widened byte is widening the reversed byte.
pub proof fn lemma_rev_w8(b: u8)
    ensures
        rev16(w8(b)) == w8((255 - b) as u8),
        b16(rev16(w8(b))) == (255 - b) as u8,
{
    assert(0xffff - b as int * 257 == (255 - b as int) * 257) by (nonlinear_arith);
    lemma_w8_b16((255 - b) as u8);
}


// ------------------------------------------------------------ fixed unpackers

/// A gray byte, copied into the first three slots.
pub fn unroll_1_byte(accum: &[u8], values: &mut [u16; MAX_CHANNELS]) -> (r: usize)
    requires
        accum@.len() >= 1,
    ensures
        r == 1,
        final(values)@ == old(values)@.update(0, w8(accum@[0])).update(1, w8(accum@[0])).update(
            2,
            w8(accum@[0]),
        ),
{
    let v = from_8_to_16(accum[0]);
    values[0] = v;
    values[1] = v;
    values[2] = v;
    1
}

/// A reversed gray byte, copied into three slots.
pub fn unroll_1_byte_reversed(accum: &[u8], values: &mut [u16; MAX_CHANNELS]) -> (r: usize)
    requires
        accum@.len() >= 1,
    ensures
        r == 1,
        final(values)@ == old(values)@.update(0, rev16(w8(accum@[0]))).update(
            1,
            rev16(w8(accum@[0])),
        ).update(2, rev16(w8(accum@[0]))),
{
    let v = reverse_flavor_16(from_8_to_16(accum[0]));
    values[0] = v;
    values[1] = v;
    values[2] = v;
    1
}

/// A gray byte and one extra byte.
pub fn unroll_1_byte_skip1(accum: &[u8], values: &mut [u16; MAX_CHANNELS]) -> (r: usize)
    requires
        accum@.len() >= 1,
    ensures
        r == 2,
        final(values)@ == old(values)@.update(0, w8(accum@[0])).update(1, w8(accum@[0])).update(
            2,
            w8(accum@[0]),
        ),
{
    let v = from_8_to_16(accum[0]);
    values[0] = v;
    values[1] = v;
    values[2] = v;
    2
}

/// A little-endian gray word, copied into three slots.
pub fn unroll_1_word(accum: &[u8], values: &mut [u16; MAX_CHANNELS]) -> (r: usize)
    requires
        accum@.len() >= 2,
    ensures
        r == 2,
        final(values)@ == old(values)@.update(0, le16(accum@, 0)).update(1, le16(accum@, 0)).update(
            2,
            le16(accum@, 0),
        ),
{
    let v = read_u16_le(accum, 0);
    values[0] = v;
    values[1] = v;
    values[2] = v;
    2
}

/// A reversed little-endian gray word.
pub fn unroll_1_word_reversed(accum: &[u8], values: &mut [u16; MAX_CHANNELS]) -> (r: usize)
    requires
        accum@.len() >= 2,
    ensures
        r == 2,
        final(values)@ == old(values)@.update(0, rev16(le16(accum@, 0))).update(
            1,
            rev16(le16(accum@, 0)),
        ).update(2, rev16(le16(accum@, 0))),
{
    let v = reverse_flavor_16(read_u16_le(accum, 0));
    values[0] = v;
    values[1] = v;
    values[2] = v;
    2
}

/// Three byte samples, widened into the first three slots.
pub fn unroll_3_bytes(accum: &[u8], values: &mut [u16; MAX_CHANNELS]) -> (r: usize)
    requires
        accum@.len() >= 3,
    ensures
        r == 3,
        final(values)@ == old(values)@.update(0, w8(accum@[0])).update(1, w8(accum@[1])).update(
            2,
            w8(accum@[2]),
        ),
{
    values[0] = from_8_to_16(accum[0]);
    values[1] = from_8_to_16(accum[1]);
    values[2] = from_8_to_16(accum[2]);
    3
}

/// Four byte samples, widened into the first four slots.
pub fn unroll_4_bytes(accum: &[u8], values: &mut [u16; MAX_CHANNELS]) -> (r: usize)
    requires
        accum@.len() >= 4,
    ensures
        r == 4,
        final(values)@ == old(values)@.update(0, w8(accum@[0])).update(1, w8(accum@[1])).update(
            2,
            w8(accum@[2]),
        ).update(3, w8(accum@[3])),
{
    values[0] = from_8_to_16(accum[0]);
    values[1] = from_8_to_16(accum[1]);
    values[2] = from_8_to_16(accum[2]);
    values[3] = from_8_to_16(accum[3]);
    4
}

/// Three little-endian words into the first three slots.
pub fn unroll_3_words(accum: &[u8], values: &mut [u16; MAX_CHANNELS]) -> (r: usize)
    requires
        accum@.len() >= 6,
    ensures
        r == 6,
        final(values)@ == old(values)@.update(0, le16(accum@, 0)).update(1, le16(accum@, 2)).update(
            2,
            le16(accum@, 4),
        ),
{
    values[0] = read_u16_le(accum, 0);
    values[1] = read_u16_le(accum, 2);
    values[2] = read_u16_le(accum, 4);
    6
}

/// Four little-endian words into the first four slots.
pub fn unroll_4_words(accum: &[u8], values: &mut [u16; MAX_CHANNELS]) -> (r: usize)
    requires
        accum@.len() >= 8,
    ensures
        r == 8,
        final(values)@ == old(values)@.update(0, le16(accum@, 0)).update(1, le16(accum@, 2)).update(
            2,
            le16(accum@, 4),
        ).update(3, le16(accum@, 6)),
{
    values[0] = read_u16_le(accum, 0);
    values[1] = read_u16_le(accum, 2);
    values[2] = read_u16_le(accum, 4);
    values[3] = read_u16_le(accum, 6);
    8
}

// ------------------------------------------------------------ fixed packers

/// The first three slots, narrowed to three bytes.
pub fn pack_3_bytes(values: &[u16; MAX_CHANNELS], output: &mut [u8]) -> (r: usize)
    requires
        old(output)@.len() >= 3,
    ensures
        r == 3,
        final(output)@ == old(output)@.update(0, b16(values@[0])).update(1, b16(values@[1])).update(
            2,
            b16(values@[2]),
        ),
{
    output[0] = from_16_to_8(values[0]);
    output[1] = from_16_to_8(values[1]);
    output[2] = from_16_to_8(values[2]);
    3
}

/// The first four slots, narrowed to four bytes.
pub fn pack_4_bytes(values: &[u16; MAX_CHANNELS], output: &mut [u8]) -> (r: usize)
    requires
        old(output)@.len() >= 4,
    ensures
        r == 4,
        final(output)@ == old(output)@.update(0, b16(values@[0])).update(1, b16(values@[1])).update(
            2,
            b16(values@[2]),
        ).update(3, b16(values@[3])),
{
    output[0] = from_16_to_8(values[0]);
    output[1] = from_16_to_8(values[1]);
    output[2] = from_16_to_8(values[2]);
    output[3] = from_16_to_8(values[3]);
    4
}

/// The output after the little-endian word `v` is stored at byte `i`.
pub open spec fn put_word(b: Seq<u8>, i: int, v: u16) -> Seq<u8> {
    b.update(i, (v % 256) as u8).update(i + 1, (v / 256) as u8)
}

/// The first three slots as three little-endian words.
pub fn pack_3_words(values: &[u16; MAX_CHANNELS], output: &mut [u8]) -> (r: usize)
    requires
        old(output)@.len() >= 6,
    ensures
        r == 6,
        final(output)@ == put_word(
            put_word(put_word(old(output)@, 0, values@[0]), 2, values@[1]),
            4,
            values@[2],
        ),
{
    write_u16_le(output, 0, values[0]);
    write_u16_le(output, 2, values[1]);
    write_u16_le(output, 4, values[2]);
    6
}

/// The first four slots as four little-endian words.
pub fn pack_4_words(values: &[u16; MAX_CHANNELS], output: &mut [u8]) -> (r: usize)
    requires
        old(output)@.len() >= 8,
    ensures
        r == 8,
        final(output)@ == put_word(
            put_word(put_word(put_word(old(output)@, 0, values@[0]), 2, values@[1]), 4, values@[2]),
            6,
            values@[3],
        ),
{
    write_u16_le(output, 0, values[0]);
    write_u16_le(output, 2, values[1]);
    write_u16_le(output, 4, values[2]);
    write_u16_le(output, 6, values[3]);
    8
}


// ------------------------------------------------------------ generic

/// Rotate the first `n` slots down by one, the first value going last.
fn rotate_values(values: &mut [u16; MAX_CHANNELS], n: usize)
    requires
        1 <= n <= MAX_CHANNELS,
    ensures
        forall|k: int|
            0 <= k < 16 ==> #[trigger] final(values)@[k] == if k < n - 1 {
                old(values)@[k + 1]
            } else if k == n - 1 {
                old(values)@[0]
            } else {
                old(values)@[k]
            },
{
    let tmp = values[0];
    let mut k: usize = 0;
    while k + 1 < n
        invariant
            k + 1 <= n,
            n <= 16,
            tmp == old(values)@[0],
            forall|m: int|
                0 <= m < 16 ==> #[trigger] values@[m] == if m < k {
                    old(values)@[m + 1]
                } else {
                    old(values)@[m]
                },
        decreases n - k,
    {
        let next = values[k + 1];
        values[k] = next;
        k += 1;
    }
    values[n - 1] = tmp;
}

/// `n_chan` byte samples, with `extra` extra bytes
/// before them (when exactly one of `do_swap` and `swap_first` holds) or
/// after; `do_swap` stores the channels in reverse order, `reverse` reverses
/// each sample, and with no extra samples `swap_first` rotates the values
/// down by one. Returns the bytes used.
pub fn unroll_chunky_bytes(
    n_chan: usize,
    extra: usize,
    do_swap: bool,
    swap_first: bool,
    reverse: bool,
    accum: &[u8],
    values: &mut [u16; MAX_CHANNELS],
) -> (r: usize)
    requires
        n_chan <= MAX_CHANNELS,
        n_chan + extra <= usize::MAX,
        lead(extra as int, do_swap, swap_first) + n_chan <= accum@.len(),
        extra == 0 && swap_first ==> n_chan >= 1,
    ensures
        r == n_chan + extra,
        final(values)@ == unroll_bytes_spec(
            n_chan as int,
            extra as int,
            do_swap,
            swap_first,
            reverse,
            accum@,
            old(values)@,
        ),
{
    let extra_first = do_swap != swap_first;
    let mut pos: usize = 0;
    if extra_first {
        pos = extra;
    }
    let ghost off = lead(extra as int, do_swap, swap_first);
    let ghost n = n_chan as int;
    let ghost sample = |i: int| maybe_rev(w8(accum@[off + i]), reverse);
    let mut i: usize = 0;
    while i < n_chan
        invariant
            i <= n_chan <= 16,
            n == n_chan as int,
            pos == off + i,
            off + n_chan <= accum@.len(),
            sample == (|i: int| maybe_rev(w8(accum@[off + i]), reverse)),
            forall|k: int|
                0 <= k < 16 ==> #[trigger] values@[k] == if 0 <= k < n && chan(n, do_swap, k) < i {
                    sample(chan(n, do_swap, k))
                } else {
                    old(values)@[k]
                },
        decreases n_chan - i,
    {
        let index = if do_swap {
            n_chan - i - 1
        } else {
            i
        };
        let mut v = from_8_to_16(accum[pos]);
        if reverse {
            v = reverse_flavor_16(v);
        }
        assert(v == sample(i as int));
        assert(chan(n, do_swap, index as int) == i as int);
        let ghost before = values@;
        values[index] = v;
        assert forall|k: int| 0 <= k < 16 && k != index implies #[trigger] values@[k] == before[k]
            && (0 <= k < n ==> chan(n, do_swap, k) != i) by {}
        pos += 1;
        i += 1;
    }
    let ghost pre = values@;
    if extra == 0 && swap_first {
        rotate_values(values, n_chan);
    }
    let ghost pre_fn = |m: int|
        if 0 <= m < n {
            sample(chan(n, do_swap, m))
        } else {
            old(values)@[m]
        };
    assert forall|k: int| 0 <= k < 16 implies #[trigger] values@[k] == rotate_slot(
        pre_fn,
        n,
        extra == 0 && swap_first,
        k,
    ) by {
        assert(pre[k] == pre_fn(k));
        if 0 <= k + 1 < 16 {
            assert(pre[k + 1] == pre_fn(k + 1));
        }
        assert(pre[0] == pre_fn(0));
    }
    assert(values@ =~= unroll_bytes_spec(
        n_chan as int,
        extra as int,
        do_swap,
        swap_first,
        reverse,
        accum@,
        old(values)@,
    ));
    n_chan + extra
}


/// As [`unroll_chunky_bytes`] over little-endian 16-bit
/// samples, each byte-swapped first when `swap_endian` holds. Returns the
/// bytes used.
pub fn unroll_any_words(
    n_chan: usize,
    extra: usize,
    do_swap: bool,
    swap_first: bool,
    reverse: bool,
    swap_endian: bool,
    accum: &[u8],
    values: &mut [u16; MAX_CHANNELS],
) -> (r: usize)
    requires
        n_chan <= MAX_CHANNELS,
        2 * (n_chan + extra) <= usize::MAX,
        2 * (lead(extra as int, do_swap, swap_first) + n_chan) <= accum@.len(),
        extra == 0 && swap_first ==> n_chan >= 1,
    ensures
        r == 2 * (n_chan + extra),
        final(values)@ == unroll_words_spec(
            n_chan as int,
            extra as int,
            do_swap,
            swap_first,
            reverse,
            swap_endian,
            accum@,
            old(values)@,
        ),
{
    let extra_first = do_swap != swap_first;
    let mut pos: usize = 0;
    if extra_first {
        pos = extra * 2;
    }
    let ghost off = lead(extra as int, do_swap, swap_first);
    let ghost n = n_chan as int;
    let ghost sample = |i: int|
        maybe_rev(maybe_swap(le16(accum@, 2 * (off + i)), swap_endian), reverse);
    let alen = accum.len();
    let mut i: usize = 0;
    while i < n_chan
        invariant
            i <= n_chan <= 16,
            n == n_chan as int,
            alen == accum@.len(),
            pos == 2 * (off + i),
            2 * (off + n_chan) <= accum@.len(),
            sample == (|i: int|
                maybe_rev(maybe_swap(le16(accum@, 2 * (off + i)), swap_endian), reverse)),
            forall|k: int|
                0 <= k < 16 ==> #[trigger] values@[k] == if 0 <= k < n && chan(n, do_swap, k) < i {
                    sample(chan(n, do_swap, k))
                } else {
                    old(values)@[k]
                },
        decreases n_chan - i,
    {
        let index = if do_swap {
            n_chan - i - 1
        } else {
            i
        };
        let mut v = read_u16_le(accum, pos);
        if swap_endian {
            v = change_endian(v);
        }
        if reverse {
            v = reverse_flavor_16(v);
        }
        assert(v == sample(i as int));
        assert(chan(n, do_swap, index as int) == i as int);
        let ghost before = values@;
        values[index] = v;
        assert forall|k: int| 0 <= k < 16 && k != index implies #[trigger] values@[k] == before[k]
            && (0 <= k < n ==> chan(n, do_swap, k) != i) by {}
        pos += 2;
        i += 1;
    }
    let ghost pre = values@;
    if extra == 0 && swap_first {
        rotate_values(values, n_chan);
    }
    let ghost pre_fn = |m: int|
        if 0 <= m < n {
            sample(chan(n, do_swap, m))
        } else {
            old(values)@[m]
        };
    assert forall|k: int| 0 <= k < 16 implies #[trigger] values@[k] == rotate_slot(
        pre_fn,
        n,
        extra == 0 && swap_first,
        k,
    ) by {
        assert(pre[k] == pre_fn(k));
        if 0 <= k + 1 < 16 {
            assert(pre[k + 1] == pre_fn(k + 1));
        }
        assert(pre[0] == pre_fn(0));
    }
    assert(values@ =~= unroll_words_spec(
        n_chan as int,
        extra as int,
        do_swap,
        swap_first,
        reverse,
        swap_endian,
        accum@,
        old(values)@,
    ));
    2 * (n_chan + extra)
}

/// The inverse arrangement of [`unroll_chunky_bytes`],
/// each value narrowed to a byte; the extra bytes are left as they are, and
/// with no extra samples `swap_first` moves the last byte written to the
/// front. Returns the bytes covered.
pub fn pack_chunky_bytes(
    n_chan: usize,
    extra: usize,
    do_swap: bool,
    swap_first: bool,
    reverse: bool,
    values: &[u16; MAX_CHANNELS],
    output: &mut [u8],
) -> (r: usize)
    requires
        n_chan <= MAX_CHANNELS,
        n_chan + extra <= usize::MAX,
        lead(extra as int, do_swap, swap_first) + n_chan <= old(output)@.len(),
        extra == 0 && swap_first ==> n_chan >= 1,
    ensures
        r == n_chan + extra,
        final(output)@ == pack_bytes_spec(
            n_chan as int,
            extra as int,
            do_swap,
            swap_first,
            reverse,
            values@,
            old(output)@,
        ),
{
    let extra_first = do_swap != swap_first;
    let mut pos: usize = 0;
    let mut last_v: u16 = 0;
    if extra_first {
        pos = extra;
    }
    let ghost off = lead(extra as int, do_swap, swap_first);
    let ghost n = n_chan as int;
    let ghost len = output@.len();
    let mut i: usize = 0;
    while i < n_chan
        invariant
            i <= n_chan <= 16,
            n == n_chan as int,
            pos == off + i,
            off + n_chan <= len,
            output@.len() == len,
            i > 0 ==> b16(last_v) == packed_byte(values@, n, do_swap, reverse, i - 1),
            forall|p: int|
                0 <= p < len ==> #[trigger] output@[p] == if off <= p < off + i {
                    packed_byte(values@, n, do_swap, reverse, p - off)
                } else {
                    old(output)@[p]
                },
        decreases n_chan - i,
    {
        let index = if do_swap {
            n_chan - i - 1
        } else {
            i
        };
        let mut v = values[index];
        if reverse {
            v = reverse_flavor_16(v);
        }
        last_v = v;
        output[pos] = from_16_to_8(v);
        pos += 1;
        i += 1;
    }
    if extra == 0 && swap_first {
        let mut k: usize = n_chan - 1;
        while k > 0
            invariant
                k < n_chan <= 16,
                off == 0,
                output@.len() == len,
                n_chan <= len,
                forall|p: int|
                    0 <= p < len ==> #[trigger] output@[p] == if k < p < n_chan {
                        packed_byte(values@, n, do_swap, reverse, p - 1)
                    } else if 0 <= p <= k {
                        packed_byte(values@, n, do_swap, reverse, p)
                    } else {
                        old(output)@[p]
                    },
            decreases k,
        {
            let b = output[k - 1];
            output[k] = b;
            k -= 1;
        }
        output[0] = from_16_to_8(last_v);
    }
    assert(output@ =~= pack_bytes_spec(
        n_chan as int,
        extra as int,
        do_swap,
        swap_first,
        reverse,
        values@,
        old(output)@,
    ));
    n_chan + extra
}

/// As [`pack_chunky_bytes`] with little-endian 16-bit
/// samples, each byte-swapped first when `swap_endian` holds. Returns the
/// bytes covered.
pub fn pack_chunky_words(
    n_chan: usize,
    extra: usize,
    do_swap: bool,
    swap_first: bool,
    reverse: bool,
    swap_endian: bool,
    values: &[u16; MAX_CHANNELS],
    output: &mut [u8],
) -> (r: usize)
    requires
        n_chan <= MAX_CHANNELS,
        2 * (n_chan + extra) <= usize::MAX,
        2 * (lead(extra as int, do_swap, swap_first) + n_chan) <= old(output)@.len(),
        extra == 0 && swap_first ==> n_chan >= 1,
    ensures
        r == 2 * (n_chan + extra),
        final(output)@ == pack_words_spec(
            n_chan as int,
            extra as int,
            do_swap,
            swap_first,
            reverse,
            swap_endian,
            values@,
            old(output)@,
        ),
{
    let extra_first = do_swap != swap_first;
    let mut pos: usize = 0;
    let mut last_v: u16 = 0;
    if extra_first {
        pos = extra * 2;
    }
    let ghost off = 2 * lead(extra as int, do_swap, swap_first);
    let ghost n = n_chan as int;
    let ghost len = output@.len();
    let olen = output.len();
    let mut i: usize = 0;
    while i < n_chan
        invariant
            i <= n_chan <= 16,
            n == n_chan as int,
            olen == len,
            off % 2 == 0,
            pos == off + 2 * i,
            off + 2 * n_chan <= len,
            output@.len() == len,
            i > 0 ==> last_v == packed_word(values@, n, do_swap, reverse, swap_endian, i - 1),
            forall|p: int|
                0 <= p < len ==> #[trigger] output@[p] == if off <= p < off + 2 * i {
                    word_byte(packed_word(values@, n, do_swap, reverse, swap_endian, (p - off) / 2), p)
                } else {
                    old(output)@[p]
                },
        decreases n_chan - i,
    {
        let index = if do_swap {
            n_chan - i - 1
        } else {
            i
        };
        let mut v = values[index];
        if swap_endian {
            v = change_endian(v);
        }
        if reverse {
            v = reverse_flavor_16(v);
        }
        last_v = v;
        let ghost before = output@;
        write_u16_le(output, pos, v);
        proof {
            assert forall|p: int| 0 <= p < len implies #[trigger] output@[p] == if off <= p < off + 2
                * (i + 1) {
                word_byte(packed_word(values@, n, do_swap, reverse, swap_endian, (p - off) / 2), p)
            } else {
                old(output)@[p]
            } by {
                if p == pos {
                    assert((p - off) / 2 == i);
                    assert(p % 2 == 0);
                } else if p == pos + 1 {
                    assert((p - off) / 2 == i);
                    assert(p % 2 == 1);
                } else {
                    assert(output@[p] == before[p]);
                }
            }
        }
        pos += 2;
        i += 1;
    }
    if extra == 0 && swap_first {
        let mut k: usize = 2 * n_chan - 2;
        while k > 0
            invariant
                k <= 2 * n_chan - 2,
                1 <= n_chan <= 16,
                off == 0,
                output@.len() == len,
                2 * n_chan <= len,
                forall|p: int|
                    0 <= p < len ==> #[trigger] output@[p] == if k + 2 <= p < 2 * n_chan {
                        word_byte(packed_word(values@, n, do_swap, reverse, swap_endian, p / 2 - 1), p)
                    } else if 0 <= p < k + 2 && p < 2 * n_chan {
                        word_byte(packed_word(values@, n, do_swap, reverse, swap_endian, p / 2), p)
                    } else {
                        old(output)@[p]
                    },
            decreases k,
        {
            let b = output[k - 1];
            output[k + 1] = b;
            k -= 1;
        }
        write_u16_le(output, 0, last_v);
    }
    assert(output@ =~= pack_words_spec(
        n_chan as int,
        extra as int,
        do_swap,
        swap_first,
        reverse,
        swap_endian,
        values@,
        old(output)@,
    ));
    2 * (n_chan + extra)
}


/// A byte widened, reversed or not, and reversed back and narrowed.
pub proof fn lemma_undo_byte(b: u8, reverse: bool)
    ensures
        b16(maybe_rev(maybe_rev(w8(b), reverse), reverse)) == b,
{
    lemma_w8_b16(b);
    lemma_rev_swap(w8(b));
}

/// Packing the values a byte buffer was unpacked to, with the same layout,
/// writes the same bytes back over the buffer. The rotation with both
/// `do_swap` and `swap_first` set and no extra samples is the exception for
/// more than two channels.
#[verifier::rlimit(40)]
#[verifier::spinoff_prover]
pub proof fn lemma_bytes_roundtrip(
    n: int,
    extra: int,
    do_swap: bool,
    swap_first: bool,
    reverse: bool,
    accum: Seq<u8>,
    old_values: Seq<u16>,
)
    requires
        0 <= n <= 16,
        0 <= extra,
        old_values.len() == 16,
        lead(extra, do_swap, swap_first) + n <= accum.len(),
        extra == 0 && swap_first ==> n >= 1,
        !(extra == 0 && swap_first && do_swap && n > 2),
    ensures
        pack_bytes_spec(
            n,
            extra,
            do_swap,
            swap_first,
            reverse,
            unroll_bytes_spec(n, extra, do_swap, swap_first, reverse, accum, old_values),
            accum,
        ) == accum,
{
    let v = unroll_bytes_spec(n, extra, do_swap, swap_first, reverse, accum, old_values);
    let off = lead(extra, do_swap, swap_first);
    let out = pack_bytes_spec(n, extra, do_swap, swap_first, reverse, v, accum);
    let rot = extra == 0 && swap_first;
    assert forall|p: int| 0 <= p < accum.len() implies #[trigger] out[p] == accum[p] by {
        if rot && 0 <= p < n {
            assert(off == 0);
            lemma_undo_byte(accum[p], reverse);
            if p == 0 {
                let k = chan(n, do_swap, n - 1);
                assert(v[k] == maybe_rev(w8(accum[0]), reverse));
            } else {
                let k = chan(n, do_swap, p - 1);
                assert(v[k] == maybe_rev(w8(accum[p]), reverse));
            }
        } else if off <= p < off + n {
            let i = p - off;
            let k = chan(n, do_swap, i);
            assert(chan(n, do_swap, k) == i);
            assert(v[k] == maybe_rev(w8(accum[off + i]), reverse));
            lemma_undo_byte(accum[p], reverse);
        }
    }
    assert(out =~= accum);
}


/// A word byte-swapped and reversed as asked, then again, is unchanged.
pub proof fn lemma_undo_word(w: u16, swap: bool, reverse: bool)
    ensures
        maybe_rev(maybe_swap(maybe_rev(maybe_swap(w, swap), reverse), swap), reverse) == w,
{
    lemma_rev_swap(w);
    lemma_rev_swap(swap16(w));
    lemma_rev_swap(rev16(w));
}

/// The two bytes of a little-endian word.
pub proof fn lemma_word_bytes(b: Seq<u8>, q: int, p: int)
    requires
        0 <= q,
        q + 1 < b.len(),
        q % 2 == 0,
        p == q || p == q + 1,
    ensures
        word_byte(le16(b, q), p) == b[p],
{
    let lo = b[q] as int;
    let hi = b[q + 1] as int;
    assert(le16(b, q) == lo + hi * 256);
    assert((lo + hi * 256) % 256 == lo);
    assert((lo + hi * 256) / 256 == hi);
}

/// Packing the values a word buffer was unpacked to, with the same layout,
/// writes the same bytes back over the buffer, with the same exception as
/// for bytes.
#[verifier::rlimit(60)]
#[verifier::spinoff_prover]
pub proof fn lemma_words_roundtrip(
    n: int,
    extra: int,
    do_swap: bool,
    swap_first: bool,
    reverse: bool,
    swap_endian: bool,
    accum: Seq<u8>,
    old_values: Seq<u16>,
)
    requires
        0 <= n <= 16,
        0 <= extra,
        old_values.len() == 16,
        2 * (lead(extra, do_swap, swap_first) + n) <= accum.len(),
        extra == 0 && swap_first ==> n >= 1,
        !(extra == 0 && swap_first && do_swap && n > 2),
    ensures
        pack_words_spec(
            n,
            extra,
            do_swap,
            swap_first,
            reverse,
            swap_endian,
            unroll_words_spec(n, extra, do_swap, swap_first, reverse, swap_endian, accum, old_values),
            accum,
        ) == accum,
{
    let v = unroll_words_spec(n, extra, do_swap, swap_first, reverse, swap_endian, accum, old_values);
    let ld = lead(extra, do_swap, swap_first);
    let off = 2 * ld;
    let out = pack_words_spec(n, extra, do_swap, swap_first, reverse, swap_endian, v, accum);
    let rot = extra == 0 && swap_first;
    assert forall|p: int| 0 <= p < accum.len() implies #[trigger] out[p] == accum[p] by {
        let q = p - p % 2;
        if rot && 0 <= p < 2 * n {
            assert(ld == 0);
            let w = le16(accum, q);
            lemma_undo_word(w, swap_endian, reverse);
            lemma_word_bytes(accum, q, p);
            if p < 2 {
                let k = chan(n, do_swap, n - 1);
                assert(v[k] == maybe_rev(maybe_swap(le16(accum, 0), swap_endian), reverse));
            } else {
                let k = chan(n, do_swap, p / 2 - 1);
                assert(q == 2 * (p / 2));
                assert(v[k] == maybe_rev(maybe_swap(le16(accum, 2 * (p / 2)), swap_endian), reverse));
            }
        } else if off <= p < off + 2 * n {
            let i = (p - off) / 2;
            assert(2 * (ld + i) == q);
            let k = chan(n, do_swap, i);
            assert(chan(n, do_swap, k) == i);
            let w = le16(accum, q);
            assert(v[k] == maybe_rev(maybe_swap(w, swap_endian), reverse));
            lemma_undo_word(w, swap_endian, reverse);
            lemma_word_bytes(accum, q, p);
        }
    }
    assert(out =~= accum);
}

/// Unpacking 16-bit samples in order: with the endian flag set each sample
/// is read high byte first (big-endian), without it low byte first.
pub proof fn lemma_unroll_words_endian(n: int, extra: int, accum: Seq<u8>, old: Seq<u16>, i: int)
    requires
        0 <= i < n <= 16,
    ensures
        unroll_words_spec(n, extra, false, false, false, true, accum, old)[i] == accum[2 * i] as int * 256
            + accum[2 * i + 1] as int,
        unroll_words_spec(n, extra, false, false, false, false, accum, old)[i] == accum[2 * i] as int
            + accum[2 * i + 1] as int * 256,
{
    let b0 = accum[2 * i] as int;
    let b1 = accum[2 * i + 1] as int;
    let v = le16(accum, 2 * i);
    assert(v == b0 + b1 * 256);
    assert(v % 256 == b0 && v / 256 == b1);
    assert(swap16(v) == b0 * 256 + b1);
}

/// Packing 16-bit samples in order: with the endian flag set each sample is
/// written high byte first (big-endian), without it low byte first.
pub proof fn lemma_pack_words_endian(n: int, values: Seq<u16>, out: Seq<u8>, i: int)
    requires
        0 <= i < n <= 16,
        2 * n <= out.len(),
    ensures
        pack_words_spec(n, 0, false, false, false, true, values, out)[2 * i] == values[i] / 256,
        pack_words_spec(n, 0, false, false, false, true, values, out)[2 * i + 1] == values[i] % 256,
        pack_words_spec(n, 0, false, false, false, false, values, out)[2 * i] == values[i] % 256,
        pack_words_spec(n, 0, false, false, false, false, values, out)[2 * i + 1] == values[i] / 256,
{
    let v = values[i];
    let s = swap16(v);
    assert(s == (v % 256) * 256 + v / 256);
    assert(s % 256 == v / 256 && s / 256 == v % 256);
    assert((2 * i) / 2 == i && (2 * i + 1) / 2 == i);
    assert((2 * i) % 2 == 0 && (2 * i + 1) % 2 == 1);
}

} // verus!
