//! The codec laws: the decoder's scan and replay undo exactly what
//! the encoder's delta transform and packers produce.

use vstd::arithmetic::div_mod::{lemma_breakdown, lemma_div_is_ordered, lemma_fundamental_div_mod,
    lemma_fundamental_div_mod_converse, lemma_small_mod};
use vstd::prelude::*;

use crate::bits::{lemma_u32_low_mask_ends, lemma_u32_mask_step, lemma_u32_xor_cancel, stream_bit,
    u32_bit, u32_low_mask};
use crate::compress::{compress_spec, delta_exts, delta_exts_from, delta_spans, delta_spans_from,
    fp_exts, fp_spans, lemma_delta_streams_len, lemma_fp_stream_vals, lemma_fp_streams_len};
use crate::decompress::{count_eq, decompress_spec, lemma_count_eq_concat, lemma_scan_spans_found,
    replay, scan_spans, DecompressError};
use crate::pack::{elem_bit3, lemma_group3_from_elem, lemma_pack3_bytes_bits,
    lemma_unpack5_of_pack5, pack3_bytes, pack5_bytes, spec_pack3_size, unpacked3, unpacked5};

verus! {

/// Counting over a one-element sequence.
proof fn lemma_count_eq_one(x: u8, v: u8)
    ensures
        count_eq(seq![x], v) == (if x == v {
            1nat
        } else {
            0nat
        }),
{
    assert(seq![x].drop_last() =~= Seq::<u8>::empty());
    assert(count_eq(seq![x].drop_last(), v) == 0);
    assert(seq![x].last() == x);
}

/// One delta word's run: exactly one terminator, at its end, and one
/// extension for each 7-span.
proof fn lemma_delta_run_counts(d: u32, i: int, last: int)
    requires
        0 <= last <= i <= 32,
    ensures
        count_eq(delta_spans_from(d, i, last), 0) == 1,
        delta_spans_from(d, i, last).last() == 0,
        count_eq(delta_spans_from(d, i, last), 7) == delta_exts_from(d, i, last).len(),
    decreases 32 - i,
{
    let ds = delta_spans_from(d, i, last);
    if i >= 32 {
        lemma_count_eq_one(0u8, 0u8);
        lemma_count_eq_one(0u8, 7u8);
        assert(ds == seq![0u8]);
        assert(ds.last() == 0);
    } else if u32_bit(d, i as u32) {
        lemma_delta_run_counts(d, i + 1, i + 1);
        let g = i + 1 - last;
        let head: Seq<u8> = if g >= 7 {
            seq![7u8]
        } else {
            seq![g as u8]
        };
        let tail = delta_spans_from(d, i + 1, i + 1);
        assert(ds == head + tail);
        lemma_count_eq_concat(head, tail, 0);
        lemma_count_eq_concat(head, tail, 7);
        lemma_count_eq_one(head[0], 0u8);
        lemma_count_eq_one(head[0], 7u8);
        assert(head =~= seq![head[0]]);
        lemma_delta_streams_len(d, i + 1, i + 1);
        assert(ds.last() == tail.last());
        assert(head[0] != 0);
        if g >= 7 {
            assert(head[0] == 7);
            assert(delta_exts_from(d, i, last).len() == 1 + delta_exts_from(d, i + 1, i + 1).len());
        } else {
            assert(head[0] == g as u8);
            assert(head[0] != 7);
            assert(delta_exts_from(d, i, last) =~= delta_exts_from(d, i + 1, i + 1));
        }
    } else {
        lemma_delta_run_counts(d, i + 1, last);
        assert(ds == delta_spans_from(d, i + 1, last));
    }
}

/// A fingerprint's span stream holds one terminator per word, ends on
/// one, and holds one extension per 7-span.
proof fn lemma_fp_stream_counts(fp: Seq<u32>, prev: u32)
    ensures
        count_eq(fp_spans(fp, prev), 0) == fp.len(),
        count_eq(fp_spans(fp, prev), 7) == fp_exts(fp, prev).len(),
        fp.len() > 0 ==> fp_spans(fp, prev).last() == 0,
    decreases fp.len(),
{
    if fp.len() == 0 {
        assert(count_eq(fp_spans(fp, prev), 0) == 0);
        assert(count_eq(fp_spans(fp, prev), 7) == 0);
    } else {
        let d = fp[0] ^ prev;
        let head = delta_spans(d);
        let tail = fp_spans(fp.skip(1), fp[0]);
        lemma_delta_run_counts(d, 0, 0);
        lemma_fp_stream_counts(fp.skip(1), fp[0]);
        lemma_count_eq_concat(head, tail, 0);
        lemma_count_eq_concat(head, tail, 7);
        assert(fp_spans(fp, prev) == head + tail);
        if fp.len() == 1 {
            assert(tail.len() == 0);
            assert(head + tail =~= head);
            assert(fp_spans(fp, prev).last() == head.last());
        } else {
            lemma_fp_streams_len(fp.skip(1), fp[0]);
            assert(tail.len() > 0);
            assert((head + tail).last() == tail.last());
        }
    }
}

/// Replaying the remaining runs of one delta word, from the middle of
/// its bit scan, finishes rebuilding the word.
proof fn lemma_replay_delta(
    d: u32,
    i: int,
    last: int,
    acc: u32,
    prev: u32,
    srest: Seq<u8>,
    erest: Seq<u8>,
)
    requires
        0 <= last <= i <= 32,
        acc == d & u32_low_mask(i),
    ensures
        replay(
            delta_spans_from(d, i, last) + srest,
            delta_exts_from(d, i, last) + erest,
            last,
            acc,
            prev,
        ) == seq![d ^ prev] + replay(srest, erest, 0, 0, d ^ prev),
    decreases 32 - i,
{
    let spans = delta_spans_from(d, i, last) + srest;
    let exts = delta_exts_from(d, i, last) + erest;
    if i >= 32 {
        lemma_u32_low_mask_ends(d);
        assert(acc == d);
        assert(delta_spans_from(d, i, last) == seq![0u8]);
        assert(spans[0] == 0);
        assert(spans.skip(1) =~= srest);
        assert(exts =~= erest);
        assert(replay(spans, exts, last, acc, prev) == seq![acc ^ prev] + replay(
            spans.skip(1),
            exts,
            0,
            0,
            acc ^ prev,
        ));
        assert(replay(spans.skip(1), exts, 0, 0, acc ^ prev) == replay(
            srest,
            erest,
            0,
            0,
            d ^ prev,
        ));
    } else if u32_bit(d, i as u32) {
        let g = i + 1 - last;
        lemma_u32_mask_step(d, acc, i as u32);
        let acc2 = acc | (1u32 << (i as u32));
        assert(acc2 == d & u32_low_mask(i + 1));
        let stail = delta_spans_from(d, i + 1, i + 1);
        let etail = delta_exts_from(d, i + 1, i + 1);
        lemma_small_mod(i as nat, 32);
        if g >= 7 {
            assert(delta_spans_from(d, i, last) == seq![7u8] + stail);
            assert(delta_exts_from(d, i, last) == seq![(g - 7) as u8] + etail);
            assert(spans =~= seq![7u8] + (stail + srest));
            assert(exts =~= seq![(g - 7) as u8] + (etail + erest));
            assert(spans[0] == 7);
            assert(exts[0] == (g - 7) as u8);
            assert(exts.len() > 0);
            assert(spans.skip(1) =~= stail + srest);
            assert(exts.skip(1) =~= etail + erest);
            let e = exts[0];
            assert(e as int == g - 7);
            let noff = last + 7 + e;
            assert(noff == i + 1);
            assert((noff - 1) % 32 == i);
            assert(replay(spans, exts, last, acc, prev) == replay(
                spans.skip(1),
                exts.skip(1),
                noff,
                acc | (1u32 << (((noff - 1) % 32) as u32)),
                prev,
            ));
            assert(acc | (1u32 << (((noff - 1) % 32) as u32)) == acc2);
            lemma_replay_delta(d, i + 1, i + 1, acc2, prev, srest, erest);
            assert(replay(stail + srest, etail + erest, i + 1, acc2, prev) == seq![d ^ prev]
                + replay(srest, erest, 0, 0, d ^ prev));
        } else {
            assert(delta_spans_from(d, i, last) == seq![g as u8] + stail);
            assert(delta_exts_from(d, i, last) == Seq::<u8>::empty() + etail);
            assert(spans =~= seq![g as u8] + (stail + srest));
            assert(exts =~= etail + erest);
            assert(spans[0] == g as u8);
            assert(1 <= g <= 6);
            assert(spans[0] != 0 && spans[0] != 7);
            assert(spans.skip(1) =~= stail + srest);
            let noff = last + (g as u8);
            assert(noff == i + 1);
            assert((noff - 1) % 32 == i);
            assert(replay(spans, exts, last, acc, prev) == replay(
                spans.skip(1),
                exts,
                noff,
                acc | (1u32 << (((noff - 1) % 32) as u32)),
                prev,
            ));
            assert(acc | (1u32 << (((noff - 1) % 32) as u32)) == acc2);
            lemma_replay_delta(d, i + 1, i + 1, acc2, prev, srest, erest);
            assert(replay(stail + srest, etail + erest, i + 1, acc2, prev) == seq![d ^ prev]
                + replay(srest, erest, 0, 0, d ^ prev));
        }
    } else {
        lemma_u32_mask_step(d, acc, i as u32);
        assert(delta_spans_from(d, i, last) == delta_spans_from(d, i + 1, last));
        assert(delta_exts_from(d, i, last) == delta_exts_from(d, i + 1, last));
        lemma_replay_delta(d, i + 1, last, acc, prev, srest, erest);
    }
}

/// Replaying a whole span stream, with any extension tail appended,
/// rebuilds the fingerprint.
proof fn lemma_replay_stream(fp: Seq<u32>, prev: u32, tail: Seq<u8>)
    ensures
        replay(fp_spans(fp, prev), fp_exts(fp, prev) + tail, 0, 0, prev) == fp,
    decreases fp.len(),
{
    if fp.len() == 0 {
        assert(fp_spans(fp, prev).len() == 0);
        assert(replay(fp_spans(fp, prev), fp_exts(fp, prev) + tail, 0, 0, prev)
            == Seq::<u32>::empty());
        assert(fp =~= Seq::<u32>::empty());
    } else {
        let d = fp[0] ^ prev;
        lemma_u32_low_mask_ends(d);
        let srest = fp_spans(fp.skip(1), fp[0]);
        let erest = fp_exts(fp.skip(1), fp[0]);
        assert(fp_spans(fp, prev) == delta_spans(d) + srest);
        assert(fp_exts(fp, prev) + tail =~= delta_exts(d) + (erest + tail));
        assert(0u32 == d & u32_low_mask(0));
        lemma_replay_delta(d, 0, 0, 0, prev, srest, erest + tail);
        lemma_u32_xor_cancel(fp[0], prev);
        assert(d ^ prev == fp[0]);
        lemma_replay_stream(fp.skip(1), fp[0], tail);
        assert(seq![fp[0]] + fp.skip(1) =~= fp);
    }
}

/// Round-trip: decompressing a compressed fingerprint yields the
/// algorithm byte and the original words.
///
/// The decoder refuses any buffer whose declared word count exceeds
/// the bytes after the header, and strong delta compression can make
/// a valid buffer that short; the second premise admits exactly the
/// fingerprints that survive that check. The count field is three
/// bytes, which the first premise reflects.
#[verifier::rlimit(100)]
pub proof fn lemma_compress_decompress_round_trip(fp: Seq<u32>, algorithm: u8)
    requires
        fp.len() < 0x1000000,
        4 + fp.len() <= compress_spec(fp, algorithm).len(),
    ensures
        decompress_spec(compress_spec(fp, algorithm)) == Ok::<(u8, Seq<u32>), DecompressError>(
            (algorithm, fp),
        ),
{
    let data = compress_spec(fp, algorithm);
    let s = fp_spans(fp, 0);
    let e = fp_exts(fp, 0);
    let p3 = pack3_bytes(s);
    let p5 = pack5_bytes(e);
    let n = fp.len() as int;
    let header = seq![
        algorithm,
        (fp.len() / 65536) as u8,
        ((fp.len() / 256) % 256) as u8,
        (fp.len() % 256) as u8,
    ];
    assert(data == header + p3 + p5);
    assert(data.len() == 4 + p3.len() + p5.len());
    assert(data[0] == algorithm);
    assert(data[1] == (fp.len() / 65536) as u8);
    assert(data[2] == ((fp.len() / 256) % 256) as u8);
    assert(data[3] == (fp.len() % 256) as u8);
    // The three count bytes parse back to the word count.
    lemma_fundamental_div_mod(n, 65536);
    lemma_breakdown(n, 256, 256);
    assert(n / 65536 < 256) by {
        lemma_div_is_ordered(n, 0xffffff, 65536);
        assert(0xffffffint / 65536 == 255);
    }
    assert(n / 65536 == (n / 256) / 256) by {
        vstd::arithmetic::div_mod::lemma_div_denominator(n, 256, 256);
    }
    assert((data[1] as int) * 65536 + (data[2] as int) * 256 + (data[3] as int) == n);
    // The count sanity check passes.
    assert(n <= data.len() - 4);
    // The whole remainder, unpacked as spans, starts with the true
    // span stream.
    let body = data.skip(4);
    assert(body =~= p3 + p5);
    let u = unpacked3(body);
    lemma_fp_stream_vals(fp, 0);
    lemma_fundamental_div_mod(3 * s.len() as int + 7, 8);
    assert(3 * s.len() <= 8 * p3.len());
    assert(u.len() == 8 * body.len() / 3);
    assert(s.len() <= u.len()) by {
        lemma_div_is_ordered(3 * s.len() as int, 8 * body.len() as int, 3);
        lemma_fundamental_div_mod_converse(3 * s.len() as int, 3, s.len() as int, 0);
    }
    assert forall|j: int| 0 <= j < s.len() implies u[j] == s[j] by {
        assert forall|k: int| 3 * j <= k < 3 * j + 3 implies #[trigger] stream_bit(body, k)
            == elem_bit3(s, k) by {
            assert(k < 8 * p3.len());
            lemma_fundamental_div_mod(k, 8);
            assert(body[k / 8] == p3[k / 8]);
            lemma_pack3_bytes_bits(s, k);
        }
        assert(s[j] < 8);
        lemma_group3_from_elem(body, s, j);
    }
    // The scan stops exactly at the end of the true span stream.
    lemma_fp_stream_counts(fp, 0);
    let l = s.len() as int;
    assert(u.take(l) =~= s);
    if n == 0 {
        assert(l == 0);
        lemma_scan_spans_found(u, 0, 0);
    } else {
        assert(u[l - 1] == s[l - 1]);
        assert(s[l - 1] == s.last());
        assert(u.take(l - 1) =~= s.drop_last());
        assert(count_eq(s, 0) == count_eq(s.drop_last(), 0) + 1);
        lemma_scan_spans_found(u, n, l);
    }
    assert(scan_spans(u, n) == Some(l));
    // The extension region unpacks to the true extensions, then zeros.
    assert(count_eq(u.take(l), 7) == e.len());
    assert(spec_pack3_size(l) == p3.len() as int);
    let ebytes = data.skip(4 + spec_pack3_size(l));
    assert(ebytes =~= p5);
    let ua5 = unpacked5(ebytes);
    lemma_unpack5_of_pack5(e);
    assert(ua5 == unpacked5(p5));
    assert(ua5.len() >= e.len());
    assert(ua5 =~= e + ua5.skip(e.len() as int));
    // Replay rebuilds the words.
    lemma_replay_stream(fp, 0, ua5.skip(e.len() as int));
    assert(replay(u.take(l), ua5, 0, 0, 0) == fp);
    assert(decompress_spec(data) == Ok::<(u8, Seq<u32>), DecompressError>((algorithm, fp)));
}

/// The empty fingerprint compresses to the bare four-byte header,
/// which decodes back to the algorithm byte and no words.
pub proof fn lemma_empty_round_trip(algorithm: u8)
    ensures
        compress_spec(Seq::empty(), algorithm) == seq![algorithm, 0u8, 0u8, 0u8],
        decompress_spec(seq![algorithm, 0u8, 0u8, 0u8]) == Ok::<(u8, Seq<u32>), DecompressError>(
            (algorithm, Seq::empty()),
        ),
{
    let fp = Seq::<u32>::empty();
    assert(fp_spans(fp, 0).len() == 0);
    assert(fp_exts(fp, 0).len() == 0);
    assert(pack3_bytes(fp_spans(fp, 0)).len() == 0);
    assert(pack5_bytes(fp_exts(fp, 0)).len() == 0);
    assert(compress_spec(fp, algorithm) =~= seq![algorithm, 0u8, 0u8, 0u8]);
    lemma_compress_decompress_round_trip(fp, algorithm);
}

} // verus!
