//! The span encoder. Each sub-fingerprint is XOR-ed with its
//! predecessor; the distances between consecutive set bits of that
//! delta become 3-bit spans (`7` marks a distance of seven or more,
//! with the remainder in a 5-bit extension), and every word's run ends
//! with a `0` terminator span.

use vstd::prelude::*;

use crate::bits::{lemma_u32_xor_self, lemma_u32_zero_bits, u32_bit};
use crate::pack::{pack3, pack3_size, pack3_bytes, pack5, pack5_size, pack5_bytes};

verus! {

/// Spans still to be emitted for the delta word `d` once bits below
/// `i` have been scanned and `last` is the 1-based position of the
/// last set bit seen (0 when none has been seen).
pub open spec fn delta_spans_from(d: u32, i: int, last: int) -> Seq<u8>
    decreases 32 - i,
{
    if i >= 32 {
        seq![0u8]
    } else if u32_bit(d, i as u32) {
        let g = i + 1 - last;
        (if g >= 7 {
            seq![7u8]
        } else {
            seq![g as u8]
        }) + delta_spans_from(d, i + 1, i + 1)
    } else {
        delta_spans_from(d, i + 1, last)
    }
}

/// Extensions still to be emitted for the delta word `d`, one for each
/// distance of seven or more.
pub open spec fn delta_exts_from(d: u32, i: int, last: int) -> Seq<u8>
    decreases 32 - i,
{
    if i >= 32 {
        Seq::empty()
    } else if u32_bit(d, i as u32) {
        let g = i + 1 - last;
        (if g >= 7 {
            seq![(g - 7) as u8]
        } else {
            Seq::empty()
        }) + delta_exts_from(d, i + 1, i + 1)
    } else {
        delta_exts_from(d, i + 1, last)
    }
}

/// All spans for one delta word, terminator included.
pub open spec fn delta_spans(d: u32) -> Seq<u8> {
    delta_spans_from(d, 0, 0)
}

/// All extensions for one delta word.
pub open spec fn delta_exts(d: u32) -> Seq<u8> {
    delta_exts_from(d, 0, 0)
}

/// Span stream for a whole fingerprint, each word first XOR-ed with
/// its predecessor (`prev` before the first).
pub open spec fn fp_spans(fp: Seq<u32>, prev: u32) -> Seq<u8>
    decreases fp.len(),
{
    if fp.len() == 0 {
        Seq::empty()
    } else {
        delta_spans(fp[0] ^ prev) + fp_spans(fp.skip(1), fp[0])
    }
}

/// Extension stream for a whole fingerprint.
pub open spec fn fp_exts(fp: Seq<u32>, prev: u32) -> Seq<u8>
    decreases fp.len(),
{
    if fp.len() == 0 {
        Seq::empty()
    } else {
        delta_exts(fp[0] ^ prev) + fp_exts(fp.skip(1), fp[0])
    }
}

/// The predecessor word once all of `fp` has been consumed.
pub open spec fn last_word(fp: Seq<u32>, prev: u32) -> u32 {
    if fp.len() == 0 {
        prev
    } else {
        fp.last()
    }
}

/// The whole compressed buffer: one algorithm byte, a 3-byte
/// big-endian word count, the packed spans, then the packed
/// extensions.
pub open spec fn compress_spec(fp: Seq<u32>, algorithm: u8) -> Seq<u8> {
    seq![
        algorithm,
        (fp.len() / 65536) as u8,
        ((fp.len() / 256) % 256) as u8,
        (fp.len() % 256) as u8,
    ] + pack3_bytes(fp_spans(fp, 0)) + pack5_bytes(fp_exts(fp, 0))
}

/// Appending one word extends the two streams by that word's runs.
pub proof fn lemma_fp_streams_push(fp: Seq<u32>, x: u32, prev: u32)
    ensures
        fp_spans(fp.push(x), prev) == fp_spans(fp, prev) + delta_spans(x ^ last_word(fp, prev)),
        fp_exts(fp.push(x), prev) == fp_exts(fp, prev) + delta_exts(x ^ last_word(fp, prev)),
    decreases fp.len(),
{
    if fp.len() == 0 {
        let e = fp.push(x).skip(1);
        assert(e =~= Seq::<u32>::empty());
        assert(fp.push(x)[0] == x);
        assert(fp_spans(fp.push(x), prev) == delta_spans(x ^ prev) + fp_spans(e, x));
        assert(fp_exts(fp.push(x), prev) == delta_exts(x ^ prev) + fp_exts(e, x));
        assert(fp_spans(e, x) == Seq::<u8>::empty());
        assert(fp_exts(e, x) == Seq::<u8>::empty());
        assert(delta_spans(x ^ prev) + Seq::<u8>::empty() =~= delta_spans(x ^ prev));
        assert(delta_exts(x ^ prev) + Seq::<u8>::empty() =~= delta_exts(x ^ prev));
        assert(fp_spans(fp, prev) == Seq::<u8>::empty());
        assert(fp_exts(fp, prev) == Seq::<u8>::empty());
        assert(Seq::<u8>::empty() + delta_spans(x ^ prev) =~= delta_spans(x ^ prev));
        assert(Seq::<u8>::empty() + delta_exts(x ^ prev) =~= delta_exts(x ^ prev));
    } else {
        lemma_fp_streams_push(fp.skip(1), x, fp[0]);
        assert(fp.push(x).skip(1) =~= fp.skip(1).push(x));
        assert(last_word(fp.skip(1), fp[0]) == last_word(fp, prev));
        assert(fp_spans(fp.push(x), prev) =~= fp_spans(fp, prev) + delta_spans(
            x ^ last_word(fp, prev),
        ));
        assert(fp_exts(fp.push(x), prev) =~= fp_exts(fp, prev) + delta_exts(
            x ^ last_word(fp, prev),
        ));
    }
}

/// Length bounds for one delta word's streams.
pub proof fn lemma_delta_streams_len(d: u32, i: int, last: int)
    requires
        0 <= i <= 32,
    ensures
        1 <= delta_spans_from(d, i, last).len() <= 33 - i,
        delta_exts_from(d, i, last).len() <= 32 - i,
    decreases 32 - i,
{
    if i < 32 {
        lemma_delta_streams_len(d, i + 1, if u32_bit(d, i as u32) {
            i + 1
        } else {
            last
        });
    }
}

/// Length bounds for a whole fingerprint's streams.
pub proof fn lemma_fp_streams_len(fp: Seq<u32>, prev: u32)
    ensures
        fp.len() <= fp_spans(fp, prev).len() <= 33 * fp.len(),
        fp_exts(fp, prev).len() <= 32 * fp.len(),
    decreases fp.len(),
{
    if fp.len() > 0 {
        lemma_delta_streams_len(fp[0] ^ prev, 0, 0);
        lemma_fp_streams_len(fp.skip(1), fp[0]);
    }
}

/// Every span is at most 7 and every extension at most 25.
pub proof fn lemma_delta_stream_vals(d: u32, i: int, last: int)
    requires
        0 <= last <= i <= 32,
    ensures
        forall|t: int|
            0 <= t < delta_spans_from(d, i, last).len() ==> #[trigger] delta_spans_from(
                d,
                i,
                last,
            )[t] <= 7,
        forall|t: int|
            0 <= t < delta_exts_from(d, i, last).len() ==> #[trigger] delta_exts_from(
                d,
                i,
                last,
            )[t] <= 25,
    decreases 32 - i,
{
    if i < 32 {
        if u32_bit(d, i as u32) {
            lemma_delta_stream_vals(d, i + 1, i + 1);
            let g = i + 1 - last;
            let shead: Seq<u8> = if g >= 7 {
                seq![7u8]
            } else {
                seq![g as u8]
            };
            let stail = delta_spans_from(d, i + 1, i + 1);
            assert forall|t: int| 0 <= t < delta_spans_from(d, i, last).len() implies #[trigger]
                delta_spans_from(d, i, last)[t] <= 7 by {
                if t >= 1 {
                    assert(delta_spans_from(d, i, last)[t] == stail[t - 1]);
                }
            }
            let ehead: Seq<u8> = if g >= 7 {
                seq![(g - 7) as u8]
            } else {
                Seq::empty()
            };
            let etail = delta_exts_from(d, i + 1, i + 1);
            assert forall|t: int| 0 <= t < delta_exts_from(d, i, last).len() implies #[trigger]
                delta_exts_from(d, i, last)[t] <= 25 by {
                if t >= ehead.len() {
                    assert(delta_exts_from(d, i, last)[t] == etail[t - ehead.len()]);
                }
            }
        } else {
            lemma_delta_stream_vals(d, i + 1, last);
            assert(delta_spans_from(d, i, last) == delta_spans_from(d, i + 1, last));
            assert(delta_exts_from(d, i, last) == delta_exts_from(d, i + 1, last));
            assert forall|t: int| 0 <= t < delta_spans_from(d, i, last).len() implies #[trigger]
                delta_spans_from(d, i, last)[t] <= 7 by {
                assert(delta_spans_from(d, i, last)[t] == delta_spans_from(d, i + 1, last)[t]);
            }
            assert forall|t: int| 0 <= t < delta_exts_from(d, i, last).len() implies #[trigger]
                delta_exts_from(d, i, last)[t] <= 25 by {
                assert(delta_exts_from(d, i, last)[t] == delta_exts_from(d, i + 1, last)[t]);
            }
        }
    } else {
        assert(delta_spans_from(d, i, last) == seq![0u8]);
        assert(delta_spans_from(d, i, last)[0] == 0);
    }
}

/// Every span of a fingerprint's stream is at most 7 and every
/// extension at most 25.
pub proof fn lemma_fp_stream_vals(fp: Seq<u32>, prev: u32)
    ensures
        forall|t: int|
            0 <= t < fp_spans(fp, prev).len() ==> #[trigger] fp_spans(fp, prev)[t] <= 7,
        forall|t: int| 0 <= t < fp_exts(fp, prev).len() ==> #[trigger] fp_exts(fp, prev)[t] <= 25,
    decreases fp.len(),
{
    if fp.len() > 0 {
        lemma_delta_stream_vals(fp[0] ^ prev, 0, 0);
        lemma_fp_stream_vals(fp.skip(1), fp[0]);
        let shead = delta_spans(fp[0] ^ prev);
        let stail = fp_spans(fp.skip(1), fp[0]);
        assert forall|t: int| 0 <= t < fp_spans(fp, prev).len() implies #[trigger] fp_spans(
            fp,
            prev,
        )[t] <= 7 by {
            if t < shead.len() {
                assert(fp_spans(fp, prev)[t] == shead[t]);
            } else {
                assert(fp_spans(fp, prev)[t] == stail[t - shead.len()]);
            }
        }
        let ehead = delta_exts(fp[0] ^ prev);
        let etail = fp_exts(fp.skip(1), fp[0]);
        assert forall|t: int| 0 <= t < fp_exts(fp, prev).len() implies #[trigger] fp_exts(
            fp,
            prev,
        )[t] <= 25 by {
            if t < ehead.len() {
                assert(fp_exts(fp, prev)[t] == ehead[t]);
            } else {
                assert(fp_exts(fp, prev)[t] == etail[t - ehead.len()]);
            }
        }
    }
}

/// A zero delta emits only the terminator span.
pub proof fn lemma_delta_zero(i: int, last: int)
    requires
        0 <= i <= 32,
    ensures
        delta_spans_from(0u32, i, last) == seq![0u8],
        delta_exts_from(0u32, i, last) == Seq::<u8>::empty(),
    decreases 32 - i,
{
    if i < 32 {
        lemma_u32_zero_bits(i as u32);
        lemma_delta_zero(i + 1, last);
    }
}

/// Delta suppression: a repeated word XOR-s to zero against its
/// predecessor, so it adds only a terminator span and no extensions.
pub proof fn lemma_delta_suppression(fp: Seq<u32>, w: u32)
    ensures
        fp_spans(fp.push(w).push(w), 0) == fp_spans(fp.push(w), 0).push(0u8),
        fp_exts(fp.push(w).push(w), 0) == fp_exts(fp.push(w), 0),
{
    lemma_fp_streams_push(fp.push(w), w, 0);
    assert(last_word(fp.push(w), 0) == w);
    lemma_u32_xor_self(w);
    lemma_delta_zero(0, 0);
    assert(delta_spans(w ^ w) == seq![0u8]);
    assert(delta_exts(w ^ w) == Seq::<u8>::empty());
    assert(fp_spans(fp.push(w), 0) + seq![0u8] =~= fp_spans(fp.push(w), 0).push(0u8));
    assert(fp_exts(fp.push(w), 0) + Seq::<u8>::empty() =~= fp_exts(fp.push(w), 0));
}

/// Delta-compress `fp` into the interchange byte format. The word
/// count is stored in three bytes, so the input must hold fewer than
/// two to the twenty-fourth words.
pub fn compress_fingerprint(fp: &[u32], fp_algo: u8) -> (out: Vec<u8>)
    requires
        fp@.len() < 0x1000000,
    ensures
        out@ == compress_spec(fp@, fp_algo),
{
    let mut spans: Vec<u8> = Vec::with_capacity(fp.len());
    let mut span_extensions: Vec<u8> = Vec::new();
    let mut last_sub_fp: u32 = 0;
    let mut idx: usize = 0;
    while idx < fp.len()
        invariant
            fp@.len() < 0x1000000,
            idx <= fp@.len(),
            spans@ == fp_spans(fp@.take(idx as int), 0),
            span_extensions@ == fp_exts(fp@.take(idx as int), 0),
            last_sub_fp == last_word(fp@.take(idx as int), 0),
        decreases fp@.len() - idx,
    {
        let sub_fp = fp[idx];
        let precompressed = sub_fp ^ last_sub_fp;
        last_sub_fp = sub_fp;
        let ghost spans0 = spans@;
        let ghost exts0 = span_extensions@;
        let mut bit_i: u32 = 0;
        let mut last_bit: u32 = 0;
        while bit_i < 32
            invariant
                bit_i <= 32,
                last_bit <= bit_i,
                spans0 + delta_spans(precompressed) == spans@ + delta_spans_from(
                    precompressed,
                    bit_i as int,
                    last_bit as int,
                ),
                exts0 + delta_exts(precompressed) == span_extensions@ + delta_exts_from(
                    precompressed,
                    bit_i as int,
                    last_bit as int,
                ),
            decreases 32 - bit_i,
        {
            let ghost spans_in = spans@;
            let ghost exts_in = span_extensions@;
            if (precompressed >> bit_i) & 1 == 1 {
                let ghost last0 = last_bit as int;
                let g = bit_i + 1 - last_bit;
                if g >= 7 {
                    spans.push(7);
                    span_extensions.push((g - 7) as u8);
                } else {
                    spans.push(g as u8);
                }
                proof {
                    let head: Seq<u8> = if g >= 7 {
                        seq![7u8]
                    } else {
                        seq![g as u8]
                    };
                    let stail = delta_spans_from(precompressed, bit_i as int + 1, bit_i as int + 1);
                    let etail = delta_exts_from(precompressed, bit_i as int + 1, bit_i as int + 1);
                    assert(spans@ =~= spans_in + head);
                    assert(delta_spans_from(precompressed, bit_i as int, last0) == head + stail);
                    assert(spans_in + (head + stail) =~= (spans_in + head) + stail);
                    if g >= 7 {
                        assert(delta_exts_from(precompressed, bit_i as int, last0) == seq![
                            (g - 7) as u8,
                        ] + etail);
                        assert(span_extensions@ =~= exts_in + seq![(g - 7) as u8]);
                        assert(exts_in + (seq![(g - 7) as u8] + etail) =~= (exts_in + seq![
                            (g - 7) as u8,
                        ]) + etail);
                    } else {
                        assert(delta_exts_from(precompressed, bit_i as int, last0)
                            == Seq::<u8>::empty() + etail);
                        assert(Seq::<u8>::empty() + etail =~= etail);
                    }
                }
                last_bit = bit_i + 1;
            }
            bit_i = bit_i + 1;
        }
        spans.push(0);
        proof {
            assert(delta_spans_from(precompressed, 32, last_bit as int) == seq![0u8]);
            assert(delta_exts_from(precompressed, 32, last_bit as int) =~= Seq::<u8>::empty());
            assert(spans@ =~= spans0 + delta_spans(precompressed));
            assert(span_extensions@ =~= exts0 + delta_exts(precompressed));
            lemma_fp_streams_push(fp@.take(idx as int), fp@[idx as int], 0);
            assert(fp@.take(idx as int + 1) =~= fp@.take(idx as int).push(fp@[idx as int]));
            assert(fp@.take(idx as int + 1).last() == fp@[idx as int]);
        }
        idx = idx + 1;
    }
    proof {
        assert(fp@.take(fp@.len() as int) =~= fp@);
        lemma_fp_streams_len(fp@, 0);
    }
    let count = fp.len();
    let spans_size = pack3_size(spans.len());
    let exts_size = pack5_size(span_extensions.len());
    let mut output: Vec<u8> = Vec::with_capacity(4 + spans_size + exts_size);
    output.push(fp_algo);
    output.push((count / 65536) as u8);
    output.push(((count / 256) % 256) as u8);
    output.push((count % 256) as u8);
    proof {
        assert(output@ =~= seq![
            fp_algo,
            (fp@.len() / 65536) as u8,
            ((fp@.len() / 256) % 256) as u8,
            (fp@.len() % 256) as u8,
        ]);
    }
    pack3(spans, &mut output);
    pack5(span_extensions, &mut output);
    proof {
        assert(output@ =~= compress_spec(fp@, fp_algo));
    }
    output
}

} // verus!
