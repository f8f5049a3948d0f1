//! The two bit packers of the wire format. Elements of three (or five)
//! bits are laid end to end into bytes, least significant bit first, so
//! an element may straddle a byte boundary; the last byte is zero
//! padded. Unpacking returns every complete group the buffer can
//! supply, because the true element count is not stored; callers
//! truncate afterwards.

use vstd::arithmetic::div_mod::{lemma_div_is_ordered, lemma_fundamental_div_mod,
    lemma_fundamental_div_mod_converse};
use vstd::prelude::*;

use crate::bits::{byte_of_bits, lemma_byte_of_bits, lemma_u8_eq_by_bits, lemma_u8_low3,
    lemma_u8_low5, lemma_u8_set_bit, lemma_u8_zero_bits, stream_bit, u8_bit};

verus! {

/// Bit `k` of a sequence of 3-bit elements laid end to end, least
/// significant bit first: element `k / 3` supplies its bit `k % 3`.
pub open spec fn elem_bit3(elems: Seq<u8>, k: int) -> bool {
    u8_bit(elems[k / 3], (k % 3) as u8)
}

/// Bit `k` of a sequence of 5-bit elements laid end to end.
pub open spec fn elem_bit5(elems: Seq<u8>, k: int) -> bool {
    u8_bit(elems[k / 5], (k % 5) as u8)
}

/// Bit `k` of the packed 3-bit stream, zero past the last element.
pub open spec fn padded_bit3(elems: Seq<u8>, k: int) -> bool {
    k < 3 * elems.len() && elem_bit3(elems, k)
}

/// Bit `k` of the packed 5-bit stream, zero past the last element.
pub open spec fn padded_bit5(elems: Seq<u8>, k: int) -> bool {
    k < 5 * elems.len() && elem_bit5(elems, k)
}

/// Number of bytes that hold `n` packed 3-bit elements.
pub open spec fn spec_pack3_size(n: int) -> int {
    (3 * n + 7) / 8
}

/// Number of bytes the 5-bit packer writes for `n` elements.
pub open spec fn spec_pack5_written(n: int) -> int {
    (5 * n + 7) / 8
}

/// Capacity the reference format reserves for `n` packed 5-bit
/// elements: always one whole spare stride beyond what is written.
pub open spec fn spec_pack5_size(n: int) -> int {
    (n / 8 + 1) * 5
}

/// Byte `i` of the packed 3-bit stream for `elems`.
pub open spec fn pack3_byte(elems: Seq<u8>, i: int) -> u8 {
    byte_of_bits(
        padded_bit3(elems, 8 * i),
        padded_bit3(elems, 8 * i + 1),
        padded_bit3(elems, 8 * i + 2),
        padded_bit3(elems, 8 * i + 3),
        padded_bit3(elems, 8 * i + 4),
        padded_bit3(elems, 8 * i + 5),
        padded_bit3(elems, 8 * i + 6),
        padded_bit3(elems, 8 * i + 7),
    )
}

/// Byte `i` of the packed 5-bit stream for `elems`.
pub open spec fn pack5_byte(elems: Seq<u8>, i: int) -> u8 {
    byte_of_bits(
        padded_bit5(elems, 8 * i),
        padded_bit5(elems, 8 * i + 1),
        padded_bit5(elems, 8 * i + 2),
        padded_bit5(elems, 8 * i + 3),
        padded_bit5(elems, 8 * i + 4),
        padded_bit5(elems, 8 * i + 5),
        padded_bit5(elems, 8 * i + 6),
        padded_bit5(elems, 8 * i + 7),
    )
}

/// The full packed 3-bit stream for `elems`.
pub open spec fn pack3_bytes(elems: Seq<u8>) -> Seq<u8> {
    Seq::new(spec_pack3_size(elems.len() as int) as nat, |i: int| pack3_byte(elems, i))
}

/// The full packed 5-bit stream for `elems`.
pub open spec fn pack5_bytes(elems: Seq<u8>) -> Seq<u8> {
    Seq::new(spec_pack5_written(elems.len() as int) as nat, |i: int| pack5_byte(elems, i))
}

/// Value of the `j`th 3-bit group of the bit stream held in `bytes`.
pub open spec fn group3_val(bytes: Seq<u8>, j: int) -> u8 {
    (((if stream_bit(bytes, 3 * j) { 1int } else { 0int }) + (if stream_bit(bytes, 3 * j + 1) {
        2int
    } else {
        0int
    }) + (if stream_bit(bytes, 3 * j + 2) { 4int } else { 0int })) as u8)
}

/// Value of the `j`th 5-bit group of the bit stream held in `bytes`.
pub open spec fn group5_val(bytes: Seq<u8>, j: int) -> u8 {
    (((if stream_bit(bytes, 5 * j) { 1int } else { 0int }) + (if stream_bit(bytes, 5 * j + 1) {
        2int
    } else {
        0int
    }) + (if stream_bit(bytes, 5 * j + 2) { 4int } else { 0int }) + (if stream_bit(
        bytes,
        5 * j + 3,
    ) {
        8int
    } else {
        0int
    }) + (if stream_bit(bytes, 5 * j + 4) { 16int } else { 0int })) as u8)
}

/// Every complete 3-bit group the buffer `bytes` holds, in order.
pub open spec fn unpacked3(bytes: Seq<u8>) -> Seq<u8> {
    Seq::new((8 * bytes.len() / 3) as nat, |j: int| group3_val(bytes, j))
}

/// Every complete 5-bit group the buffer `bytes` holds, in order.
pub open spec fn unpacked5(bytes: Seq<u8>) -> Seq<u8> {
    Seq::new((8 * bytes.len() / 5) as nat, |j: int| group5_val(bytes, j))
}

/// Bit `8 * i + b` of a byte stream is bit `b` of byte `i`.
pub proof fn lemma_stream_bit_byte(bytes: Seq<u8>, i: int, b: u8)
    requires
        0 <= i < bytes.len(),
        b < 8,
    ensures
        stream_bit(bytes, 8 * i + b) == u8_bit(bytes[i], b),
{
    lemma_fundamental_div_mod_converse(8 * i + b, 8, i, b as int);
}

/// The packed 3-bit stream holds exactly the element bits, then zeros.
pub proof fn lemma_pack3_bytes_bits(elems: Seq<u8>, k: int)
    requires
        0 <= k < 8 * pack3_bytes(elems).len(),
    ensures
        stream_bit(pack3_bytes(elems), k) == padded_bit3(elems, k),
{
    let p = pack3_bytes(elems);
    let i = k / 8;
    let b = k % 8;
    assert(0 <= b < 8 && k == 8 * i + b && 0 <= i < p.len());
    lemma_stream_bit_byte(p, i, b as u8);
    lemma_byte_of_bits(
        padded_bit3(elems, 8 * i),
        padded_bit3(elems, 8 * i + 1),
        padded_bit3(elems, 8 * i + 2),
        padded_bit3(elems, 8 * i + 3),
        padded_bit3(elems, 8 * i + 4),
        padded_bit3(elems, 8 * i + 5),
        padded_bit3(elems, 8 * i + 6),
        padded_bit3(elems, 8 * i + 7),
    );
}

/// The packed 5-bit stream holds exactly the element bits, then zeros.
pub proof fn lemma_pack5_bytes_bits(elems: Seq<u8>, k: int)
    requires
        0 <= k < 8 * pack5_bytes(elems).len(),
    ensures
        stream_bit(pack5_bytes(elems), k) == padded_bit5(elems, k),
{
    let p = pack5_bytes(elems);
    let i = k / 8;
    let b = k % 8;
    assert(0 <= b < 8 && k == 8 * i + b && 0 <= i < p.len());
    lemma_stream_bit_byte(p, i, b as u8);
    lemma_byte_of_bits(
        padded_bit5(elems, 8 * i),
        padded_bit5(elems, 8 * i + 1),
        padded_bit5(elems, 8 * i + 2),
        padded_bit5(elems, 8 * i + 3),
        padded_bit5(elems, 8 * i + 4),
        padded_bit5(elems, 8 * i + 5),
        padded_bit5(elems, 8 * i + 6),
        padded_bit5(elems, 8 * i + 7),
    );
}

/// A 3-bit group whose bits all come from element `j` is that element.
pub proof fn lemma_group3_from_elem(bytes: Seq<u8>, elems: Seq<u8>, j: int)
    requires
        0 <= j < elems.len(),
        elems[j] < 8,
        forall|k: int| 3 * j <= k < 3 * j + 3 ==> #[trigger] stream_bit(bytes, k) == elem_bit3(
            elems,
            k,
        ),
    ensures
        group3_val(bytes, j) == elems[j],
{
    let v = elems[j];
    lemma_u8_low3(v);
    lemma_fundamental_div_mod_converse(3 * j, 3, j, 0);
    lemma_fundamental_div_mod_converse(3 * j + 1, 3, j, 1);
    lemma_fundamental_div_mod_converse(3 * j + 2, 3, j, 2);
    assert(elem_bit3(elems, 3 * j) == u8_bit(v, 0));
    assert(elem_bit3(elems, 3 * j + 1) == u8_bit(v, 1));
    assert(elem_bit3(elems, 3 * j + 2) == u8_bit(v, 2));
}

/// A 5-bit group whose bits all come from element `j` is that element.
pub proof fn lemma_group5_from_elem(bytes: Seq<u8>, elems: Seq<u8>, j: int)
    requires
        0 <= j < elems.len(),
        elems[j] < 32,
        forall|k: int| 5 * j <= k < 5 * j + 5 ==> #[trigger] stream_bit(bytes, k) == elem_bit5(
            elems,
            k,
        ),
    ensures
        group5_val(bytes, j) == elems[j],
{
    let v = elems[j];
    lemma_u8_low5(v);
    lemma_fundamental_div_mod_converse(5 * j, 5, j, 0);
    lemma_fundamental_div_mod_converse(5 * j + 1, 5, j, 1);
    lemma_fundamental_div_mod_converse(5 * j + 2, 5, j, 2);
    lemma_fundamental_div_mod_converse(5 * j + 3, 5, j, 3);
    lemma_fundamental_div_mod_converse(5 * j + 4, 5, j, 4);
    assert(elem_bit5(elems, 5 * j) == u8_bit(v, 0));
    assert(elem_bit5(elems, 5 * j + 1) == u8_bit(v, 1));
    assert(elem_bit5(elems, 5 * j + 2) == u8_bit(v, 2));
    assert(elem_bit5(elems, 5 * j + 3) == u8_bit(v, 3));
    assert(elem_bit5(elems, 5 * j + 4) == u8_bit(v, 4));
}

/// Unpacking inverts packing: the packed 3-bit stream unpacks to the
/// original elements, followed only by zero elements read out of the
/// padding bits of the final byte.
pub proof fn lemma_unpack3_of_pack3(elems: Seq<u8>)
    requires
        forall|j: int| 0 <= j < elems.len() ==> elems[j] < 8,
    ensures
        elems.len() <= unpacked3(pack3_bytes(elems)).len(),
        forall|j: int|
            0 <= j < elems.len() ==> #[trigger] unpacked3(pack3_bytes(elems))[j] == elems[j],
        forall|j: int|
            elems.len() <= j < unpacked3(pack3_bytes(elems)).len() ==> #[trigger] unpacked3(
                pack3_bytes(elems),
            )[j] == 0,
{
    let p = pack3_bytes(elems);
    let n = elems.len() as int;
    lemma_fundamental_div_mod(3 * n + 7, 8);
    assert(3 * n <= 8 * p.len());
    lemma_div_is_ordered(3 * n, 8 * p.len() as int, 3);
    lemma_fundamental_div_mod_converse(3 * n, 3, n, 0);
    assert(n <= 8 * p.len() / 3);
    lemma_fundamental_div_mod(8 * p.len() as int, 3);
    assert(3 * (8 * p.len() / 3) <= 8 * p.len());
    assert forall|j: int| 0 <= j < n implies #[trigger] unpacked3(p)[j] == elems[j] by {
        assert forall|k: int| 3 * j <= k < 3 * j + 3 implies #[trigger] stream_bit(p, k)
            == elem_bit3(elems, k) by {
            lemma_pack3_bytes_bits(elems, k);
        }
        lemma_group3_from_elem(p, elems, j);
    }
    assert forall|j: int| n <= j < unpacked3(p).len() implies #[trigger] unpacked3(p)[j] == 0 by {
        assert(3 * j + 2 < 8 * p.len());
        lemma_pack3_bytes_bits(elems, 3 * j);
        lemma_pack3_bytes_bits(elems, 3 * j + 1);
        lemma_pack3_bytes_bits(elems, 3 * j + 2);
        assert(group3_val(p, j) == 0);
    }
}

/// Unpacking inverts packing for the 5-bit stream in the same way.
pub proof fn lemma_unpack5_of_pack5(elems: Seq<u8>)
    requires
        forall|j: int| 0 <= j < elems.len() ==> elems[j] < 32,
    ensures
        elems.len() <= unpacked5(pack5_bytes(elems)).len(),
        forall|j: int|
            0 <= j < elems.len() ==> #[trigger] unpacked5(pack5_bytes(elems))[j] == elems[j],
        forall|j: int|
            elems.len() <= j < unpacked5(pack5_bytes(elems)).len() ==> #[trigger] unpacked5(
                pack5_bytes(elems),
            )[j] == 0,
{
    let p = pack5_bytes(elems);
    let n = elems.len() as int;
    lemma_fundamental_div_mod(5 * n + 7, 8);
    assert(5 * n <= 8 * p.len());
    lemma_div_is_ordered(5 * n, 8 * p.len() as int, 5);
    lemma_fundamental_div_mod_converse(5 * n, 5, n, 0);
    assert(n <= 8 * p.len() / 5);
    lemma_fundamental_div_mod(8 * p.len() as int, 5);
    assert(5 * (8 * p.len() / 5) <= 8 * p.len());
    assert forall|j: int| 0 <= j < n implies #[trigger] unpacked5(p)[j] == elems[j] by {
        assert forall|k: int| 5 * j <= k < 5 * j + 5 implies #[trigger] stream_bit(p, k)
            == elem_bit5(elems, k) by {
            lemma_pack5_bytes_bits(elems, k);
        }
        lemma_group5_from_elem(p, elems, j);
    }
    assert forall|j: int| n <= j < unpacked5(p).len() implies #[trigger] unpacked5(p)[j] == 0 by {
        assert(5 * j + 4 < 8 * p.len());
        lemma_pack5_bytes_bits(elems, 5 * j);
        lemma_pack5_bytes_bits(elems, 5 * j + 1);
        lemma_pack5_bytes_bits(elems, 5 * j + 2);
        lemma_pack5_bytes_bits(elems, 5 * j + 3);
        lemma_pack5_bytes_bits(elems, 5 * j + 4);
        assert(group5_val(p, j) == 0);
    }
}

/// Number of bytes needed to hold `count` packed 3-bit elements.
pub fn pack3_size(count: usize) -> (r: usize)
    requires
        3 * count + 7 <= usize::MAX,
    ensures
        r == spec_pack3_size(count as int),
{
    (count * 3 + 7) / 8
}

/// Number of bytes the reference format reserves for `count` packed
/// 5-bit elements; one spare stride beyond what is ever written.
pub fn pack5_size(count: usize) -> (r: usize)
    requires
        (count / 8 + 1) * 5 <= usize::MAX,
    ensures
        r == spec_pack5_size(count as int),
{
    (count / 8 + 1) * 5
}

/// Append the packed 3-bit stream for `elems` to `out`. Only the three
/// low bits of each element are read.
pub fn pack3(elems: Vec<u8>, out: &mut Vec<u8>)
    requires
        3 * elems@.len() <= usize::MAX,
    ensures
        final(out)@ == old(out)@ + pack3_bytes(elems@),
{
    let total: usize = 3 * elems.len();
    let mut packed: Vec<u8> = Vec::with_capacity(total / 8 + 1);
    let mut cur: u8 = 0;
    let mut k: usize = 0;
    proof {
        assert forall|b: u8| b < 8 implies !u8_bit(0u8, b) by {
            lemma_u8_zero_bits(b);
        }
    }
    while k < total
        invariant
            total == 3 * elems@.len(),
            k <= total,
            packed@.len() == k / 8,
            forall|i: int|
                0 <= i < 8 * (k as int / 8) ==> #[trigger] stream_bit(packed@, i) == padded_bit3(
                    elems@,
                    i,
                ),
            forall|b: u8|
                b < 8 ==> (#[trigger] u8_bit(cur, b) == (8 * (k as int / 8) + b < k
                    && padded_bit3(elems@, 8 * (k as int / 8) + b))),
        decreases total - k,
    {
        proof {
            lemma_fundamental_div_mod(k as int, 8);
            lemma_fundamental_div_mod(k as int, 3);
        }
        let j = k / 3;
        let sh: u8 = (k % 3) as u8;
        let bit = (elems[j] >> sh) & 1 == 1;
        proof {
            assert(bit == padded_bit3(elems@, k as int));
        }
        let pos: u8 = (k % 8) as u8;
        let ghost oldcur = cur;
        if bit {
            cur = cur | (1u8 << pos);
            proof {
                assert forall|b: u8| b < 8 implies #[trigger] u8_bit(cur, b) == (b == pos || u8_bit(
                    oldcur,
                    b,
                )) by {
                    lemma_u8_set_bit(oldcur, pos, b);
                }
            }
        }
        proof {
            assert forall|b: u8| b < 8 implies #[trigger] u8_bit(cur, b) == (8 * (k as int / 8) + b
                < k + 1 && padded_bit3(elems@, 8 * (k as int / 8) + b)) by {
                assert(8 * (k as int / 8) + pos == k);
            }
        }
        let ghost oldpacked = packed@;
        let ghost flushed = cur;
        if pos == 7 {
            packed.push(cur);
            cur = 0;
            proof {
                assert forall|b: u8| b < 8 implies !u8_bit(0u8, b) by {
                    lemma_u8_zero_bits(b);
                }
                assert(8 * (k as int / 8) + 8 == k + 1);
                assert forall|i: int| 0 <= i < k + 1 implies #[trigger] stream_bit(packed@, i)
                    == padded_bit3(elems@, i) by {
                    lemma_fundamental_div_mod(i, 8);
                    if i / 8 < oldpacked.len() {
                        assert(i < 8 * (k as int / 8));
                        assert(packed@[i / 8] == oldpacked[i / 8]);
                        assert(stream_bit(oldpacked, i) == padded_bit3(elems@, i));
                        assert(stream_bit(packed@, i) == stream_bit(oldpacked, i));
                    } else {
                        assert(i / 8 == k as int / 8);
                        assert(packed@[i / 8] == flushed);
                        assert(8 * (k as int / 8) + ((i % 8) as u8) == i);
                        assert(u8_bit(flushed, (i % 8) as u8) == (8 * (k as int / 8) + ((i
                            % 8) as u8) < k + 1 && padded_bit3(elems@, 8 * (k as int / 8) + ((i
                            % 8) as u8))));
                        assert(u8_bit(flushed, (i % 8) as u8) == padded_bit3(elems@, i));
                        assert(stream_bit(packed@, i) == u8_bit(flushed, (i % 8) as u8));
                    }
                }
                lemma_fundamental_div_mod_converse(k as int + 1, 8, k as int / 8 + 1, 0);
            }
        } else {
            proof {
                lemma_fundamental_div_mod_converse(
                    k as int + 1,
                    8,
                    k as int / 8,
                    k as int % 8 + 1,
                );
            }
        }
        k = k + 1;
    }
    if total % 8 != 0 {
        let ghost oldpacked = packed@;
        packed.push(cur);
        proof {
            lemma_fundamental_div_mod(total as int, 8);
            lemma_fundamental_div_mod_converse(
                3 * elems@.len() as int + 7,
                8,
                total as int / 8 + 1,
                total as int % 8 - 1,
            );
            assert forall|i: int| 0 <= i < 8 * packed@.len() implies #[trigger] stream_bit(
                packed@,
                i,
            ) == padded_bit3(elems@, i) by {
                lemma_fundamental_div_mod(i, 8);
                if i / 8 < oldpacked.len() {
                    assert(i < 8 * (total as int / 8));
                    assert(packed@[i / 8] == oldpacked[i / 8]);
                    assert(stream_bit(oldpacked, i) == padded_bit3(elems@, i));
                    assert(stream_bit(packed@, i) == stream_bit(oldpacked, i));
                } else {
                    assert(i / 8 == total as int / 8);
                    assert(packed@[i / 8] == cur);
                    assert(8 * (total as int / 8) + ((i % 8) as u8) == i);
                    assert(u8_bit(cur, (i % 8) as u8) == (8 * (total as int / 8) + ((i
                        % 8) as u8) < total && padded_bit3(elems@, 8 * (total as int / 8) + ((i
                        % 8) as u8))));
                    assert(i >= total ==> !padded_bit3(elems@, i));
                    assert(u8_bit(cur, (i % 8) as u8) == padded_bit3(elems@, i));
                    assert(stream_bit(packed@, i) == u8_bit(cur, (i % 8) as u8));
                }
            }
        }
    } else {
        proof {
            lemma_fundamental_div_mod(total as int, 8);
            lemma_fundamental_div_mod_converse(3 * elems@.len() as int + 7, 8, total as int / 8, 7);
        }
    }
    proof {
        assert(packed@.len() == spec_pack3_size(elems@.len() as int));
        assert forall|i: int| 0 <= i < packed@.len() implies packed@[i] == pack3_byte(
            elems@,
            i,
        ) by {
            lemma_byte_of_bits(
                padded_bit3(elems@, 8 * i),
                padded_bit3(elems@, 8 * i + 1),
                padded_bit3(elems@, 8 * i + 2),
                padded_bit3(elems@, 8 * i + 3),
                padded_bit3(elems@, 8 * i + 4),
                padded_bit3(elems@, 8 * i + 5),
                padded_bit3(elems@, 8 * i + 6),
                padded_bit3(elems@, 8 * i + 7),
            );
            lemma_stream_bit_byte(packed@, i, 0);
            lemma_stream_bit_byte(packed@, i, 1);
            lemma_stream_bit_byte(packed@, i, 2);
            lemma_stream_bit_byte(packed@, i, 3);
            lemma_stream_bit_byte(packed@, i, 4);
            lemma_stream_bit_byte(packed@, i, 5);
            lemma_stream_bit_byte(packed@, i, 6);
            lemma_stream_bit_byte(packed@, i, 7);
            lemma_u8_eq_by_bits(packed@[i], pack3_byte(elems@, i));
        }
        assert(packed@ =~= pack3_bytes(elems@));
    }
    out.append(&mut packed);
}

/// Append the packed 5-bit stream for `elems` to `out`. Only the five
/// low bits of each element are read.
pub fn pack5(elems: Vec<u8>, out: &mut Vec<u8>)
    requires
        5 * elems@.len() <= usize::MAX,
    ensures
        final(out)@ == old(out)@ + pack5_bytes(elems@),
{
    let total: usize = 5 * elems.len();
    let mut packed: Vec<u8> = Vec::with_capacity(total / 8 + 1);
    let mut cur: u8 = 0;
    let mut k: usize = 0;
    proof {
        assert forall|b: u8| b < 8 implies !u8_bit(0u8, b) by {
            lemma_u8_zero_bits(b);
        }
    }
    while k < total
        invariant
            total == 5 * elems@.len(),
            k <= total,
            packed@.len() == k / 8,
            forall|i: int|
                0 <= i < 8 * (k as int / 8) ==> #[trigger] stream_bit(packed@, i) == padded_bit5(
                    elems@,
                    i,
                ),
            forall|b: u8|
                b < 8 ==> (#[trigger] u8_bit(cur, b) == (8 * (k as int / 8) + b < k
                    && padded_bit5(elems@, 8 * (k as int / 8) + b))),
        decreases total - k,
    {
        proof {
            lemma_fundamental_div_mod(k as int, 8);
            lemma_fundamental_div_mod(k as int, 5);
        }
        let j = k / 5;
        let sh: u8 = (k % 5) as u8;
        let bit = (elems[j] >> sh) & 1 == 1;
        proof {
            assert(bit == padded_bit5(elems@, k as int));
        }
        let pos: u8 = (k % 8) as u8;
        let ghost oldcur = cur;
        if bit {
            cur = cur | (1u8 << pos);
            proof {
                assert forall|b: u8| b < 8 implies #[trigger] u8_bit(cur, b) == (b == pos || u8_bit(
                    oldcur,
                    b,
                )) by {
                    lemma_u8_set_bit(oldcur, pos, b);
                }
            }
        }
        proof {
            assert forall|b: u8| b < 8 implies #[trigger] u8_bit(cur, b) == (8 * (k as int / 8) + b
                < k + 1 && padded_bit5(elems@, 8 * (k as int / 8) + b)) by {
                assert(8 * (k as int / 8) + pos == k);
            }
        }
        let ghost oldpacked = packed@;
        let ghost flushed = cur;
        if pos == 7 {
            packed.push(cur);
            cur = 0;
            proof {
                assert forall|b: u8| b < 8 implies !u8_bit(0u8, b) by {
                    lemma_u8_zero_bits(b);
                }
                assert(8 * (k as int / 8) + 8 == k + 1);
                assert forall|i: int| 0 <= i < k + 1 implies #[trigger] stream_bit(packed@, i)
                    == padded_bit5(elems@, i) by {
                    lemma_fundamental_div_mod(i, 8);
                    if i / 8 < oldpacked.len() {
                        assert(i < 8 * (k as int / 8));
                        assert(packed@[i / 8] == oldpacked[i / 8]);
                        assert(stream_bit(oldpacked, i) == padded_bit5(elems@, i));
                        assert(stream_bit(packed@, i) == stream_bit(oldpacked, i));
                    } else {
                        assert(i / 8 == k as int / 8);
                        assert(packed@[i / 8] == flushed);
                        assert(8 * (k as int / 8) + ((i % 8) as u8) == i);
                        assert(u8_bit(flushed, (i % 8) as u8) == (8 * (k as int / 8) + ((i
                            % 8) as u8) < k + 1 && padded_bit5(elems@, 8 * (k as int / 8) + ((i
                            % 8) as u8))));
                        assert(u8_bit(flushed, (i % 8) as u8) == padded_bit5(elems@, i));
                        assert(stream_bit(packed@, i) == u8_bit(flushed, (i % 8) as u8));
                    }
                }
                lemma_fundamental_div_mod_converse(k as int + 1, 8, k as int / 8 + 1, 0);
            }
        } else {
            proof {
                lemma_fundamental_div_mod_converse(
                    k as int + 1,
                    8,
                    k as int / 8,
                    k as int % 8 + 1,
                );
            }
        }
        k = k + 1;
    }
    if total % 8 != 0 {
        let ghost oldpacked = packed@;
        packed.push(cur);
        proof {
            lemma_fundamental_div_mod(total as int, 8);
            lemma_fundamental_div_mod_converse(
                5 * elems@.len() as int + 7,
                8,
                total as int / 8 + 1,
                total as int % 8 - 1,
            );
            assert forall|i: int| 0 <= i < 8 * packed@.len() implies #[trigger] stream_bit(
                packed@,
                i,
            ) == padded_bit5(elems@, i) by {
                lemma_fundamental_div_mod(i, 8);
                if i / 8 < oldpacked.len() {
                    assert(i < 8 * (total as int / 8));
                    assert(packed@[i / 8] == oldpacked[i / 8]);
                    assert(stream_bit(oldpacked, i) == padded_bit5(elems@, i));
                    assert(stream_bit(packed@, i) == stream_bit(oldpacked, i));
                } else {
                    assert(i / 8 == total as int / 8);
                    assert(packed@[i / 8] == cur);
                    assert(8 * (total as int / 8) + ((i % 8) as u8) == i);
                    assert(u8_bit(cur, (i % 8) as u8) == (8 * (total as int / 8) + ((i
                        % 8) as u8) < total && padded_bit5(elems@, 8 * (total as int / 8) + ((i
                        % 8) as u8))));
                    assert(i >= total ==> !padded_bit5(elems@, i));
                    assert(u8_bit(cur, (i % 8) as u8) == padded_bit5(elems@, i));
                    assert(stream_bit(packed@, i) == u8_bit(cur, (i % 8) as u8));
                }
            }
        }
    } else {
        proof {
            lemma_fundamental_div_mod(total as int, 8);
            lemma_fundamental_div_mod_converse(5 * elems@.len() as int + 7, 8, total as int / 8, 7);
        }
    }
    proof {
        assert(packed@.len() == spec_pack5_written(elems@.len() as int));
        assert forall|i: int| 0 <= i < packed@.len() implies packed@[i] == pack5_byte(
            elems@,
            i,
        ) by {
            lemma_byte_of_bits(
                padded_bit5(elems@, 8 * i),
                padded_bit5(elems@, 8 * i + 1),
                padded_bit5(elems@, 8 * i + 2),
                padded_bit5(elems@, 8 * i + 3),
                padded_bit5(elems@, 8 * i + 4),
                padded_bit5(elems@, 8 * i + 5),
                padded_bit5(elems@, 8 * i + 6),
                padded_bit5(elems@, 8 * i + 7),
            );
            lemma_stream_bit_byte(packed@, i, 0);
            lemma_stream_bit_byte(packed@, i, 1);
            lemma_stream_bit_byte(packed@, i, 2);
            lemma_stream_bit_byte(packed@, i, 3);
            lemma_stream_bit_byte(packed@, i, 4);
            lemma_stream_bit_byte(packed@, i, 5);
            lemma_stream_bit_byte(packed@, i, 6);
            lemma_stream_bit_byte(packed@, i, 7);
            lemma_u8_eq_by_bits(packed@[i], pack5_byte(elems@, i));
        }
        assert(packed@ =~= pack5_bytes(elems@));
    }
    out.append(&mut packed);
}

/// Unpack a byte buffer into every complete 3-bit group it holds;
/// trailing bits that do not fill a group are dropped.
pub fn unpack3(elems: &[u8]) -> (r: Vec<u8>)
    requires
        8 * elems@.len() <= usize::MAX,
    ensures
        r@ == unpacked3(elems@),
{
    let m = elems.len();
    let count: usize = 8 * m / 3;
    let mut r: Vec<u8> = Vec::with_capacity(count);
    let mut j: usize = 0;
    while j < count
        invariant
            m == elems@.len(),
            8 * m <= usize::MAX,
            count == 8 * m / 3,
            j <= count,
            r@.len() == j,
            forall|t: int| 0 <= t < j ==> r@[t] == group3_val(elems@, t),
        decreases count - j,
    {
        proof {
            assert(3 * count <= 8 * m) by {
                lemma_fundamental_div_mod_converse(
                    8 * m as int,
                    3,
                    count as int,
                    8 * m as int - 3 * count as int,
                );
            }
        }
        let k = 3 * j;
        let t0 = (elems[k / 8] >> ((k % 8) as u8)) & 1 == 1;
        let t1 = (elems[(k + 1) / 8] >> (((k + 1) % 8) as u8)) & 1 == 1;
        let t2 = (elems[(k + 2) / 8] >> (((k + 2) % 8) as u8)) & 1 == 1;
        let v: u8 = (if t0 {
            1u8
        } else {
            0u8
        }) + (if t1 {
            2u8
        } else {
            0u8
        }) + (if t2 {
            4u8
        } else {
            0u8
        });
        proof {
            assert(t0 == stream_bit(elems@, 3 * j));
            assert(t1 == stream_bit(elems@, 3 * j + 1));
            assert(t2 == stream_bit(elems@, 3 * j + 2));
            assert(v == group3_val(elems@, j as int));
        }
        r.push(v);
        j = j + 1;
    }
    proof {
        assert(r@ =~= unpacked3(elems@));
    }
    r
}

/// Unpack a byte buffer into every complete 5-bit group it holds;
/// trailing bits that do not fill a group are dropped.
pub fn unpack5(elems: &[u8]) -> (r: Vec<u8>)
    requires
        8 * elems@.len() <= usize::MAX,
    ensures
        r@ == unpacked5(elems@),
{
    let m = elems.len();
    let count: usize = 8 * m / 5;
    let mut r: Vec<u8> = Vec::with_capacity(count);
    let mut j: usize = 0;
    while j < count
        invariant
            m == elems@.len(),
            8 * m <= usize::MAX,
            count == 8 * m / 5,
            j <= count,
            r@.len() == j,
            forall|t: int| 0 <= t < j ==> r@[t] == group5_val(elems@, t),
        decreases count - j,
    {
        proof {
            assert(5 * count <= 8 * m) by {
                lemma_fundamental_div_mod_converse(
                    8 * m as int,
                    5,
                    count as int,
                    8 * m as int - 5 * count as int,
                );
            }
        }
        let k = 5 * j;
        let t0 = (elems[k / 8] >> ((k % 8) as u8)) & 1 == 1;
        let t1 = (elems[(k + 1) / 8] >> (((k + 1) % 8) as u8)) & 1 == 1;
        let t2 = (elems[(k + 2) / 8] >> (((k + 2) % 8) as u8)) & 1 == 1;
        let t3 = (elems[(k + 3) / 8] >> (((k + 3) % 8) as u8)) & 1 == 1;
        let t4 = (elems[(k + 4) / 8] >> (((k + 4) % 8) as u8)) & 1 == 1;
        let v: u8 = (if t0 {
            1u8
        } else {
            0u8
        }) + (if t1 {
            2u8
        } else {
            0u8
        }) + (if t2 {
            4u8
        } else {
            0u8
        }) + (if t3 {
            8u8
        } else {
            0u8
        }) + (if t4 {
            16u8
        } else {
            0u8
        });
        proof {
            assert(t0 == stream_bit(elems@, 5 * j));
            assert(t1 == stream_bit(elems@, 5 * j + 1));
            assert(t2 == stream_bit(elems@, 5 * j + 2));
            assert(t3 == stream_bit(elems@, 5 * j + 3));
            assert(t4 == stream_bit(elems@, 5 * j + 4));
            assert(v == group5_val(elems@, j as int));
        }
        r.push(v);
        j = j + 1;
    }
    proof {
        assert(r@ =~= unpacked5(elems@));
    }
    r
}

} // verus!
