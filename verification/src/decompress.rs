//! The span decoder. The header gives the word count; the rest of the
//! buffer is unpacked as 3-bit spans, scanned up to the count-th
//! terminator to discover the true span stream, and replayed against
//! the 5-bit extensions that follow the spans to rebuild the words.

use vstd::arithmetic::div_mod::{lemma_add_mod_noop, lemma_add_mod_noop_right,
    lemma_div_is_ordered, lemma_fundamental_div_mod, lemma_fundamental_div_mod_converse,
    lemma_mod_add_multiples_vanish};
use vstd::prelude::*;

use crate::pack::{pack3_size, spec_pack3_size, unpack3, unpack5, unpacked3, unpacked5};

verus! {

/// Why a buffer cannot be decoded.
#[derive(Clone, Copy, Debug, PartialEq, Eq, Structural)]
pub enum DecompressError {
    /// Fewer than four bytes: no room for the header. Holds the length found.
    InputTooShort(usize),
    /// The declared count cannot be satisfied by the bytes present.
    UnexpectedEndOfData,
    /// Fewer extensions than overflow spans demand: expected, then found.
    MissingExtension(usize, usize),
    /// The final span run never reached its terminator.
    IncompleteStride,
}

/// How many elements of `s` equal `v`.
pub open spec fn count_eq(s: Seq<u8>, v: u8) -> nat
    decreases s.len(),
{
    if s.len() == 0 {
        0
    } else {
        count_eq(s.drop_last(), v) + (if s.last() == v {
            1nat
        } else {
            0nat
        })
    }
}

/// Counting distributes over concatenation.
pub proof fn lemma_count_eq_concat(s: Seq<u8>, t: Seq<u8>, v: u8)
    ensures
        count_eq(s + t, v) == count_eq(s, v) + count_eq(t, v),
    decreases t.len(),
{
    if t.len() == 0 {
        assert(s + t =~= s);
    } else {
        lemma_count_eq_concat(s, t.drop_last(), v);
        assert((s + t).drop_last() =~= s + t.drop_last());
        assert((s + t).last() == t.last());
    }
}

/// No more matches than elements.
pub proof fn lemma_count_eq_len(s: Seq<u8>, v: u8)
    ensures
        count_eq(s, v) <= s.len(),
    decreases s.len(),
{
    if s.len() > 0 {
        lemma_count_eq_len(s.drop_last(), v);
    }
}

/// Splitting off the first element.
pub proof fn lemma_count_eq_head(s: Seq<u8>, v: u8)
    requires
        s.len() > 0,
    ensures
        count_eq(s, v) == (if s[0] == v {
            1nat
        } else {
            0nat
        }) + count_eq(s.skip(1), v),
{
    let head = seq![s[0]];
    assert(s =~= head + s.skip(1));
    lemma_count_eq_concat(head, s.skip(1), v);
    assert(head.drop_last() =~= Seq::<u8>::empty());
    assert(count_eq(head.drop_last(), v) == 0);
    assert(head.last() == s[0]);
    assert(count_eq(head, v) == (if s[0] == v {
        1nat
    } else {
        0nat
    }));
}

/// Length of the shortest prefix of `u` that holds `c` terminator
/// spans, when the stream holds that many at all.
pub open spec fn scan_spans(u: Seq<u8>, c: int) -> Option<int>
    decreases u.len(),
{
    if c <= 0 {
        Some(0)
    } else if u.len() == 0 {
        None
    } else {
        match scan_spans(u.skip(1), if u[0] == 0 {
            c - 1
        } else {
            c
        }) {
            Some(l) => Some(1 + l),
            None => None,
        }
    }
}

/// The scan fails exactly when the stream holds fewer terminators
/// than asked for.
pub proof fn lemma_scan_spans_none(u: Seq<u8>, c: int)
    requires
        count_eq(u, 0) < c,
    ensures
        scan_spans(u, c) is None,
    decreases u.len(),
{
    if u.len() > 0 {
        lemma_count_eq_head(u, 0);
        lemma_scan_spans_none(u.skip(1), if u[0] == 0 {
            c - 1
        } else {
            c
        });
    }
}

/// A prefix that ends on the `c`-th terminator is what the scan finds.
pub proof fn lemma_scan_spans_found(u: Seq<u8>, c: int, l: int)
    requires
        0 <= l <= u.len(),
        count_eq(u.take(l), 0) == c,
        c == 0 ==> l == 0,
        l > 0 ==> u[l - 1] == 0 && count_eq(u.take(l - 1), 0) == c - 1,
    ensures
        scan_spans(u, c) == Some(l),
    decreases u.len(),
{
    if c <= 0 {
    } else {
        assert(l > 0) by {
            if l == 0 {
                assert(u.take(0) =~= Seq::<u8>::empty());
            }
        }
        let tail = u.skip(1);
        let c2 = if u[0] == 0 {
            c - 1
        } else {
            c
        };
        assert(u.take(l) =~= seq![u[0]] + tail.take(l - 1));
        lemma_count_eq_head(u.take(l), 0);
        assert(u.take(l).skip(1) =~= tail.take(l - 1));
        assert(count_eq(tail.take(l - 1), 0) == c2);
        if l == 1 {
            assert(tail.take(0) =~= Seq::<u8>::empty());
            assert(u[0] == 0 && c == 1);
            lemma_scan_spans_found(tail, 0, 0);
        } else {
            assert(u.take(l - 1) =~= seq![u[0]] + tail.take(l - 2));
            lemma_count_eq_head(u.take(l - 1), 0);
            assert(u.take(l - 1).skip(1) =~= tail.take(l - 2));
            assert(count_eq(tail.take(l - 2), 0) == c2 - 1);
            assert(c2 > 0) by {
                if u[0] == 0 && c == 1 {
                    assert(count_eq(u.take(l - 1), 0) == 0);
                    assert(u.take(l - 1)[0] == u[0]);
                    lemma_count_eq_head(u.take(l - 1), 0);
                    assert(count_eq(u.take(l - 1), 0) >= 1);
                }
            }
            assert(tail[l - 2] == u[l - 1]);
            lemma_scan_spans_found(tail, c2, l - 1);
        }
    }
}

/// Replay a span stream: a terminator finishes one word by XOR-ing the
/// accumulator with the previous word; any other span advances the bit
/// cursor by its distance (a 7 adds the next extension on top) and
/// sets the bit the cursor reaches.
pub open spec fn replay(spans: Seq<u8>, exts: Seq<u8>, off: int, fp: u32, prev: u32) -> Seq<u32>
    decreases spans.len(),
{
    if spans.len() == 0 {
        Seq::empty()
    } else if spans[0] == 0 {
        let w = fp ^ prev;
        seq![w] + replay(spans.skip(1), exts, 0, 0, w)
    } else if spans[0] == 7 {
        let e: u8 = if exts.len() > 0 {
            exts[0]
        } else {
            0
        };
        let rest: Seq<u8> = if exts.len() > 0 {
            exts.skip(1)
        } else {
            exts
        };
        let noff = off + 7 + e;
        replay(spans.skip(1), rest, noff, fp | (1u32 << (((noff - 1) % 32) as u32)), prev)
    } else {
        let noff = off + spans[0];
        replay(spans.skip(1), exts, noff, fp | (1u32 << (((noff - 1) % 32) as u32)), prev)
    }
}

/// What decoding a buffer yields, step by step: header check, count
/// check, span scan, extension check, replay.
pub open spec fn decompress_spec(data: Seq<u8>) -> Result<(u8, Seq<u32>), DecompressError> {
    if data.len() < 4 {
        Err(DecompressError::InputTooShort(data.len() as usize))
    } else {
        let count = (data[1] as int) * 65536 + (data[2] as int) * 256 + (data[3] as int);
        if count > data.len() - 4 {
            Err(DecompressError::UnexpectedEndOfData)
        } else {
            let u = unpacked3(data.skip(4));
            match scan_spans(u, count) {
                None => Err(DecompressError::UnexpectedEndOfData),
                Some(l) => {
                    let spans = u.take(l);
                    let needed = count_eq(spans, 7);
                    let exts = unpacked5(data.skip(4 + spec_pack3_size(l)));
                    if exts.len() < needed {
                        Err(
                            DecompressError::MissingExtension(
                                needed as usize,
                                exts.len() as usize,
                            ),
                        )
                    } else {
                        Ok((data[0], replay(spans, exts, 0, 0, 0)))
                    }
                },
            }
        }
    }
}

/// The decoded pair seen through its mathematical view.
pub open spec fn decoded_view(r: Result<(u8, Vec<u32>), DecompressError>) -> Result<
    (u8, Seq<u32>),
    DecompressError,
> {
    match r {
        Ok((a, v)) => Ok((a, v@)),
        Err(e) => Err(e),
    }
}

/// Decode a compressed buffer back into its algorithm byte and word
/// sequence, or say exactly why it cannot be decoded.
pub fn decompress_fingerprint(compressed: &[u8]) -> (r: Result<
    (u8, Vec<u32>),
    DecompressError,
>)
    requires
        8 * compressed@.len() <= usize::MAX,
    ensures
        decoded_view(r) == decompress_spec(compressed@),
{
    let n = compressed.len();
    if n < 4 {
        return Err(DecompressError::InputTooShort(n));
    }
    let algorithm = compressed[0];
    let count: usize = (compressed[1] as usize) * 65536 + (compressed[2] as usize) * 256 + (
    compressed[3] as usize);
    if count > n - 4 {
        return Err(DecompressError::UnexpectedEndOfData);
    }
    let body = &compressed[4..n];
    proof {
        assert(body@ =~= compressed@.skip(4));
    }
    let spans_all = unpack3(body);
    let ghost u = unpacked3(compressed@.skip(4));
    let mut i: usize = 0;
    let mut zeros: usize = 0;
    let mut sevens: usize = 0;
    let mut found: bool = count == 0;
    proof {
        assert(u.take(0) =~= Seq::<u8>::empty());
    }
    while i < spans_all.len() && !found
        invariant
            spans_all@ == u,
            i <= u.len(),
            zeros == count_eq(u.take(i as int), 0),
            sevens == count_eq(u.take(i as int), 7),
            sevens <= i,
            !found ==> zeros < count,
            found ==> zeros == count,
            found ==> (count == 0 && i == 0) || (i > 0 && u[i as int - 1] == 0 && count_eq(
                u.take(i as int - 1),
                0,
            ) == count - 1),
        decreases u.len() - i,
    {
        let s = spans_all[i];
        proof {
            assert(u.take(i as int + 1).drop_last() =~= u.take(i as int));
            assert(u.take(i as int + 1).last() == u[i as int]);
            lemma_count_eq_len(u.take(i as int + 1), 7);
        }
        if s == 0 {
            zeros = zeros + 1;
            if zeros == count {
                found = true;
            }
        } else if s == 7 {
            sevens = sevens + 1;
        }
        i = i + 1;
    }
    if !found {
        proof {
            assert(u.take(u.len() as int) =~= u);
            lemma_scan_spans_none(u, count as int);
        }
        return Err(DecompressError::UnexpectedEndOfData);
    }
    let end = i;
    proof {
        lemma_scan_spans_found(u, count as int, end as int);
    }
    let ghost spans_true = u.take(end as int);
    proof {
        lemma_fundamental_div_mod(8 * (n as int - 4), 3);
        assert(3 * end <= 8 * (n as int - 4));
        lemma_div_is_ordered(3 * (end as int) + 7, 8 * (n as int - 4) + 7, 8);
        lemma_fundamental_div_mod_converse(8 * (n as int - 4) + 7, 8, n as int - 4, 7);
        assert(spec_pack3_size(end as int) <= n as int - 4);
    }
    let ext_offset = 4 + pack3_size(end);
    let ext_slice = &compressed[ext_offset..n];
    proof {
        assert(ext_slice@ =~= compressed@.skip(4 + spec_pack3_size(end as int)));
    }
    let exts_all = unpack5(ext_slice);
    if exts_all.len() < sevens {
        return Err(DecompressError::MissingExtension(sevens, exts_all.len()));
    }
    let mut out: Vec<u32> = Vec::with_capacity(count);
    let mut fp: u32 = 0;
    let mut fp_prev: u32 = 0;
    let mut bit_offset: u32 = 0;
    let ghost mut off_g: int = 0;
    let mut ei: usize = 0;
    let mut si: usize = 0;
    let ghost full = replay(spans_true, exts_all@, 0, 0, 0);
    proof {
        assert(u.take(0) =~= Seq::<u8>::empty());
        assert(spans_true.skip(0) =~= spans_true);
        assert(exts_all@.skip(0) =~= exts_all@);
    }
    while si < end
        invariant
            spans_all@ == u,
            end <= u.len(),
            spans_true == u.take(end as int),
            si <= end,
            ei == count_eq(u.take(si as int), 7),
            sevens == count_eq(spans_true, 7),
            exts_all@.len() >= sevens,
            full == out@ + replay(
                spans_true.skip(si as int),
                exts_all@.skip(ei as int),
                off_g,
                fp,
                fp_prev,
            ),
            off_g >= 0,
            bit_offset == off_g % 32,
            fp == 0 || (si > 0 && spans_true[si as int - 1] != 0),
        decreases end - si,
    {
        let s = spans_all[si];
        let ghost stail = spans_true.skip(si as int);
        let ghost out0 = out@;
        let ghost fp0 = fp;
        let ghost prev0 = fp_prev;
        let ghost off0 = off_g;
        let ghost ei0 = ei as int;
        proof {
            assert(stail[0] == spans_true[si as int]);
            assert(spans_true[si as int] == u[si as int]);
            assert(stail.skip(1) =~= spans_true.skip(si as int + 1));
            assert(u.take(si as int + 1).drop_last() =~= u.take(si as int));
            assert(u.take(si as int + 1).last() == u[si as int]);
        }
        if s == 0 {
            fp = fp ^ fp_prev;
            out.push(fp);
            fp_prev = fp;
            fp = 0;
            bit_offset = 0;
            proof {
                off_g = 0;
                let w = fp0 ^ prev0;
                assert(replay(stail, exts_all@.skip(ei0), off0, fp0, prev0) == seq![w] + replay(
                    stail.skip(1),
                    exts_all@.skip(ei0),
                    0,
                    0,
                    w,
                ));
                assert(out@ =~= out0 + seq![w]);
                assert(out0 + (seq![w] + replay(stail.skip(1), exts_all@.skip(ei0), 0, 0, w)) =~= (
                out0 + seq![w]) + replay(stail.skip(1), exts_all@.skip(ei0), 0, 0, w));
            }
        } else {
            let d: u32;
            if s == 7 {
                proof {
                    assert(u.take(end as int) =~= u.take(si as int + 1) + u.subrange(
                        si as int + 1,
                        end as int,
                    ));
                    lemma_count_eq_concat(
                        u.take(si as int + 1),
                        u.subrange(si as int + 1, end as int),
                        7,
                    );
                    assert(ei < sevens);
                }
                let e = exts_all[ei];
                ei = ei + 1;
                d = 7 + (e as u32);
                proof {
                    assert(exts_all@.skip(ei0)[0] == exts_all@[ei0]);
                    assert(exts_all@.skip(ei0).skip(1) =~= exts_all@.skip(ei0 + 1));
                }
            } else {
                d = s as u32;
            }
            bit_offset = (bit_offset + d) % 32;
            let sh: u32 = (bit_offset + 31) % 32;
            fp = fp | (1u32 << sh);
            proof {
                let noff = off0 + d as int;
                off_g = noff;
                lemma_add_mod_noop(off0, d as int, 32);
                lemma_add_mod_noop_right(off0 % 32, d as int, 32);
                assert(bit_offset == noff % 32);
                lemma_mod_add_multiples_vanish(noff - 1, 32);
                lemma_add_mod_noop(noff, 31, 32);
                lemma_add_mod_noop_right(noff % 32, 31, 32);
                assert((noff % 32 + 31) % 32 == (noff + 31) % 32);
                assert(sh == ((noff - 1) % 32) as u32);
                if s == 7 {
                    assert(replay(stail, exts_all@.skip(ei0), off0, fp0, prev0) == replay(
                        stail.skip(1),
                        exts_all@.skip(ei0 + 1),
                        noff,
                        fp0 | (1u32 << (((noff - 1) % 32) as u32)),
                        prev0,
                    ));
                } else {
                    assert(replay(stail, exts_all@.skip(ei0), off0, fp0, prev0) == replay(
                        stail.skip(1),
                        exts_all@.skip(ei0),
                        noff,
                        fp0 | (1u32 << (((noff - 1) % 32) as u32)),
                        prev0,
                    ));
                }
            }
        }
        si = si + 1;
    }
    proof {
        assert(spans_true.skip(end as int) =~= Seq::<u8>::empty());
        assert(full == out@);
    }
    if fp != 0 {
        return Err(DecompressError::IncompleteStride);
    }
    Ok((algorithm, out))
}

} // verus!
