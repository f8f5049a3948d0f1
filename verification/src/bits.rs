//! Single-bit views of bytes, words and byte streams, with the small
//! bit-level lemmas the packers and the codec proofs are built on.

use vstd::prelude::*;

verus! {

/// True when bit `i` (least significant bit is 0) of `x` is set.
pub open spec fn u8_bit(x: u8, i: u8) -> bool {
    (x >> i) & 1 == 1
}

/// True when bit `i` (least significant bit is 0) of `x` is set.
pub open spec fn u32_bit(x: u32, i: u32) -> bool {
    (x >> i) & 1 == 1
}

/// Bit `k` of a byte sequence read as one little-endian bit stream:
/// byte `k / 8` supplies its bit `k % 8`.
pub open spec fn stream_bit(bytes: Seq<u8>, k: int) -> bool {
    u8_bit(bytes[k / 8], (k % 8) as u8)
}

/// The byte whose eight bits, least significant first, are the given ones.
pub open spec fn byte_of_bits(
    b0: bool,
    b1: bool,
    b2: bool,
    b3: bool,
    b4: bool,
    b5: bool,
    b6: bool,
    b7: bool,
) -> u8 {
    (((if b0 { 1int } else { 0int }) + (if b1 { 2int } else { 0int }) + (if b2 {
        4int
    } else {
        0int
    }) + (if b3 { 8int } else { 0int }) + (if b4 { 16int } else { 0int }) + (if b5 {
        32int
    } else {
        0int
    }) + (if b6 { 64int } else { 0int }) + (if b7 { 128int } else { 0int })) as u8)
}

/// `byte_of_bits` really places each argument at its bit position.
pub proof fn lemma_byte_of_bits(
    b0: bool,
    b1: bool,
    b2: bool,
    b3: bool,
    b4: bool,
    b5: bool,
    b6: bool,
    b7: bool,
)
    ensures
        u8_bit(byte_of_bits(b0, b1, b2, b3, b4, b5, b6, b7), 0) == b0,
        u8_bit(byte_of_bits(b0, b1, b2, b3, b4, b5, b6, b7), 1) == b1,
        u8_bit(byte_of_bits(b0, b1, b2, b3, b4, b5, b6, b7), 2) == b2,
        u8_bit(byte_of_bits(b0, b1, b2, b3, b4, b5, b6, b7), 3) == b3,
        u8_bit(byte_of_bits(b0, b1, b2, b3, b4, b5, b6, b7), 4) == b4,
        u8_bit(byte_of_bits(b0, b1, b2, b3, b4, b5, b6, b7), 5) == b5,
        u8_bit(byte_of_bits(b0, b1, b2, b3, b4, b5, b6, b7), 6) == b6,
        u8_bit(byte_of_bits(b0, b1, b2, b3, b4, b5, b6, b7), 7) == b7,
{
    let t0: u8 = if b0 { 1 } else { 0 };
    let t1: u8 = if b1 { 1 } else { 0 };
    let t2: u8 = if b2 { 1 } else { 0 };
    let t3: u8 = if b3 { 1 } else { 0 };
    let t4: u8 = if b4 { 1 } else { 0 };
    let t5: u8 = if b5 { 1 } else { 0 };
    let t6: u8 = if b6 { 1 } else { 0 };
    let t7: u8 = if b7 { 1 } else { 0 };
    let v = byte_of_bits(b0, b1, b2, b3, b4, b5, b6, b7);
    assert(v == (t0 + 2 * t1 + 4 * t2 + 8 * t3 + 16 * t4 + 32 * t5 + 64 * t6 + 128 * t7) as u8);
    assert((((t0 + 2 * t1 + 4 * t2 + 8 * t3 + 16 * t4 + 32 * t5 + 64 * t6 + 128 * t7) as u8 >> 0u8)
        & 1 == t0) && (((t0 + 2 * t1 + 4 * t2 + 8 * t3 + 16 * t4 + 32 * t5 + 64 * t6 + 128
        * t7) as u8 >> 1u8) & 1 == t1) && (((t0 + 2 * t1 + 4 * t2 + 8 * t3 + 16 * t4 + 32 * t5 + 64
        * t6 + 128 * t7) as u8 >> 2u8) & 1 == t2) && (((t0 + 2 * t1 + 4 * t2 + 8 * t3 + 16 * t4 + 32
        * t5 + 64 * t6 + 128 * t7) as u8 >> 3u8) & 1 == t3) && (((t0 + 2 * t1 + 4 * t2 + 8 * t3 + 16
        * t4 + 32 * t5 + 64 * t6 + 128 * t7) as u8 >> 4u8) & 1 == t4) && (((t0 + 2 * t1 + 4 * t2 + 8
        * t3 + 16 * t4 + 32 * t5 + 64 * t6 + 128 * t7) as u8 >> 5u8) & 1 == t5) && (((t0 + 2 * t1 + 4
        * t2 + 8 * t3 + 16 * t4 + 32 * t5 + 64 * t6 + 128 * t7) as u8 >> 6u8) & 1 == t6) && (((t0 + 2
        * t1 + 4 * t2 + 8 * t3 + 16 * t4 + 32 * t5 + 64 * t6 + 128 * t7) as u8 >> 7u8) & 1 == t7))
        by (bit_vector)
        requires
            t0 <= 1 && t1 <= 1 && t2 <= 1 && t3 <= 1 && t4 <= 1 && t5 <= 1 && t6 <= 1 && t7 <= 1,
    ;
}

/// Two bytes that agree on all eight bits are equal.
pub proof fn lemma_u8_eq_by_bits(x: u8, y: u8)
    requires
        u8_bit(x, 0) == u8_bit(y, 0),
        u8_bit(x, 1) == u8_bit(y, 1),
        u8_bit(x, 2) == u8_bit(y, 2),
        u8_bit(x, 3) == u8_bit(y, 3),
        u8_bit(x, 4) == u8_bit(y, 4),
        u8_bit(x, 5) == u8_bit(y, 5),
        u8_bit(x, 6) == u8_bit(y, 6),
        u8_bit(x, 7) == u8_bit(y, 7),
    ensures
        x == y,
{
    assert(x == y) by (bit_vector)
        requires
            ((x >> 0u8) & 1 == 1) == ((y >> 0u8) & 1 == 1),
            ((x >> 1u8) & 1 == 1) == ((y >> 1u8) & 1 == 1),
            ((x >> 2u8) & 1 == 1) == ((y >> 2u8) & 1 == 1),
            ((x >> 3u8) & 1 == 1) == ((y >> 3u8) & 1 == 1),
            ((x >> 4u8) & 1 == 1) == ((y >> 4u8) & 1 == 1),
            ((x >> 5u8) & 1 == 1) == ((y >> 5u8) & 1 == 1),
            ((x >> 6u8) & 1 == 1) == ((y >> 6u8) & 1 == 1),
            ((x >> 7u8) & 1 == 1) == ((y >> 7u8) & 1 == 1),
    ;
}

/// Setting one bit with `|` leaves every other bit as it was.
pub proof fn lemma_u8_set_bit(x: u8, j: u8, i: u8)
    requires
        i < 8,
        j < 8,
    ensures
        u8_bit(x | (1u8 << j), i) == (i == j || u8_bit(x, i)),
{
    assert((((x | (1u8 << j)) >> i) & 1 == 1) == (i == j || (x >> i) & 1 == 1)) by (bit_vector)
        requires
            i < 8 && j < 8,
    ;
}

/// The zero byte has no bits set.
pub proof fn lemma_u8_zero_bits(i: u8)
    requires
        i < 8,
    ensures
        !u8_bit(0u8, i),
{
    assert((0u8 >> i) & 1 == 0) by (bit_vector);
}

/// A value below 8 is the sum of its three low bits.
pub proof fn lemma_u8_low3(v: u8)
    requires
        v < 8,
    ensures
        v == (if u8_bit(v, 0) { 1int } else { 0int }) + (if u8_bit(v, 1) { 2int } else { 0int }) + (
        if u8_bit(v, 2) {
            4int
        } else {
            0int
        }),
{
    assert(v == ((v >> 0u8) & 1) + 2 * ((v >> 1u8) & 1) + 4 * ((v >> 2u8) & 1) && ((v >> 0u8) & 1)
        <= 1 && ((v >> 1u8) & 1) <= 1 && ((v >> 2u8) & 1) <= 1) by (bit_vector)
        requires
            v < 8,
    ;
}

/// A value below 32 is the sum of its five low bits.
pub proof fn lemma_u8_low5(v: u8)
    requires
        v < 32,
    ensures
        v == (if u8_bit(v, 0) { 1int } else { 0int }) + (if u8_bit(v, 1) { 2int } else { 0int }) + (
        if u8_bit(v, 2) {
            4int
        } else {
            0int
        }) + (if u8_bit(v, 3) { 8int } else { 0int }) + (if u8_bit(v, 4) { 16int } else { 0int }),
{
    assert(v == ((v >> 0u8) & 1) + 2 * ((v >> 1u8) & 1) + 4 * ((v >> 2u8) & 1) + 8 * ((v >> 3u8) & 1)
        + 16 * ((v >> 4u8) & 1) && ((v >> 0u8) & 1) <= 1 && ((v >> 1u8) & 1) <= 1 && ((v >> 2u8) & 1)
        <= 1 && ((v >> 3u8) & 1) <= 1 && ((v >> 4u8) & 1) <= 1) by (bit_vector)
        requires
            v < 32,
    ;
}

/// The `i` low bits of a word, all set.
pub open spec fn u32_low_mask(i: int) -> u32 {
    if i <= 0 {
        0u32
    } else if i >= 32 {
        0xffff_ffffu32
    } else {
        (((1u64 << (i as u64)) - 1) as u32)
    }
}

/// The full mask keeps the word; the empty mask clears it.
pub proof fn lemma_u32_low_mask_ends(d: u32)
    ensures
        d & u32_low_mask(32) == d,
        d & u32_low_mask(0) == 0,
{
    assert(d & 0xffff_ffffu32 == d) by (bit_vector);
    assert(d & 0u32 == 0) by (bit_vector);
}

/// Growing the mask over one more bit: that bit joins exactly if set.
pub proof fn lemma_u32_mask_step(d: u32, acc: u32, i: u32)
    requires
        i < 32,
        acc == d & u32_low_mask(i as int),
    ensures
        u32_bit(d, i) ==> (acc | (1u32 << i)) == (d & u32_low_mask(i as int + 1)),
        !u32_bit(d, i) ==> acc == (d & u32_low_mask(i as int + 1)),
{
    let m0 = u32_low_mask(i as int);
    let m1 = u32_low_mask(i as int + 1);
    if i == 0 {
        assert(m0 == 0u32);
        assert(m1 == ((1u64 << 1u64) - 1) as u32);
        assert((((d >> 0u32) & 1 == 1) ==> (((d & 0u32) | (1u32 << 0u32)) == (d & m1))) && (((d
            >> 0u32) & 1 != 1) ==> ((d & 0u32) == (d & m1)))) by (bit_vector)
            requires
                m1 == ((1u64 << 1u64) - 1) as u32,
        ;
    } else if i == 31 {
        assert(m0 == ((1u64 << 31u64) - 1) as u32);
        assert(m1 == 0xffff_ffffu32);
        assert((((d >> 31u32) & 1 == 1) ==> (((d & m0) | (1u32 << 31u32)) == (d
            & 0xffff_ffffu32))) && (((d >> 31u32) & 1 != 1) ==> ((d & m0) == (d
            & 0xffff_ffffu32)))) by (bit_vector)
            requires
                m0 == ((1u64 << 31u64) - 1) as u32,
        ;
    } else {
        assert(m0 == ((1u64 << (i as u64)) - 1) as u32);
        assert(m1 == ((1u64 << ((i + 1) as u64)) - 1) as u32);
        assert((((d >> i) & 1 == 1) ==> (((d & m0) | (1u32 << i)) == (d & m1))) && (((d >> i) & 1
            != 1) ==> ((d & m0) == (d & m1)))) by (bit_vector)
            requires
                1 <= i < 31,
                m0 == ((1u64 << (i as u64)) - 1) as u32,
                m1 == ((1u64 << ((i + 1) as u64)) - 1) as u32,
        ;
    }
}

/// XOR-ing with the same word twice returns the original.
pub proof fn lemma_u32_xor_cancel(a: u32, b: u32)
    ensures
        (a ^ b) ^ b == a,
{
    assert((a ^ b) ^ b == a) by (bit_vector);
}

/// A word XOR-ed with itself is zero.
pub proof fn lemma_u32_xor_self(a: u32)
    ensures
        a ^ a == 0,
{
    assert(a ^ a == 0u32) by (bit_vector);
}

/// The zero word has no bits set.
pub proof fn lemma_u32_zero_bits(i: u32)
    requires
        i < 32,
    ensures
        !u32_bit(0u32, i),
{
    assert((0u32 >> i) & 1 == 0) by (bit_vector);
}

} // verus!
