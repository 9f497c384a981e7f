//! The global guarantees of the parser/rewriter pair, proved once and for
//! all: re-serializing a parse reproduces the input, filtering is idempotent,
//! and filtering never touches required segments, the start-of-image marker,
//! or the scan range.

use vstd::prelude::*;

use crate::jpeg::{
    apply_seg, be16, enc_seg, enc_segs, fold_meta, image_wf, init_meta, kept_segs, marker_code,
    marker_of_code, parse_canonical, parse_image, scan_from, scan_wf, seg_wf, spec_required,
    spec_standalone, write_bytes, ImageModel, Marker, MetaAcc, ParseError, ScanOut, SegmentModel,
};

verus! {

/// Splitting a suffix of `t` at `mid` splits it into two subranges.
proof fn lemma_split_suffix(t: Seq<u8>, i: int, mid: int)
    requires
        0 <= i <= mid <= t.len(),
    ensures
        t.subrange(i, t.len() as int) == t.subrange(i, mid) + t.subrange(mid, t.len() as int),
{
    assert(t.subrange(i, t.len() as int) =~= t.subrange(i, mid) + t.subrange(
        mid,
        t.len() as int,
    ));
}

/// Reading a known concatenation at the head of a suffix of `t`.
proof fn lemma_concat_split(t: Seq<u8>, i: int, a: Seq<u8>, b: Seq<u8>)
    requires
        0 <= i <= t.len(),
        t.subrange(i, t.len() as int) == a + b,
    ensures
        t.len() - i == a.len() + b.len(),
        forall|k: int| 0 <= k < a.len() ==> t[i + k] == #[trigger] a[k],
        t.subrange(i + a.len(), t.len() as int) == b,
{
    let suffix = t.subrange(i, t.len() as int);
    assert(suffix.len() == (a + b).len());
    assert forall|k: int| 0 <= k < a.len() implies t[i + k] == #[trigger] a[k] by {
        assert(0 <= k < suffix.len());
        assert(suffix[k] == (a + b)[k]);
        assert((a + b)[k] == a[k]);
        assert(suffix[k] == t[i + k]);
    }
    assert forall|k: int| 0 <= k < b.len() implies t.subrange(
        i + a.len(),
        t.len() as int,
    )[k] == b[k] by {
        assert(0 <= a.len() + k < suffix.len());
        assert(suffix[a.len() + k] == (a + b)[a.len() + k]);
        assert((a + b)[a.len() + k] == b[k]);
        assert(suffix[a.len() + k] == t[i + a.len() + k]);
        assert(t.subrange(i + a.len(), t.len() as int)[k] == t[i + a.len() + k]);
    }
    assert(t.subrange(i + a.len(), t.len() as int) =~= b);
}

/// A scan walked without fill bytes re-serializes to exactly the bytes it
/// was read from.
proof fn lemma_scan_reconstruct(s: Seq<u8>, i: int)
    requires
        0 <= i <= s.len(),
        scan_from(s, i) is Ok,
        (scan_from(s, i)->Ok_0).canonical,
    ensures
        enc_segs((scan_from(s, i)->Ok_0).segs, false) + (scan_from(s, i)->Ok_0).scan_data
            == s.subrange(i, s.len() as int),
    decreases s.len() - i,
{
    let o = scan_from(s, i)->Ok_0;
    assert(i + 2 <= s.len() && s[i] == 0xFF);
    let b = s[i + 1];
    if b == 0xFF {
        assert(!o.canonical);
    } else {
        let m = marker_of_code(b);
        crate::jpeg::lemma_code_of_marker_of_code(b);
        if spec_standalone(m) {
            assert(scan_from(s, i + 2) is Ok);
            let o2 = scan_from(s, i + 2)->Ok_0;
            assert(o2.canonical && o.scan_data == o2.scan_data);
            lemma_scan_reconstruct(s, i + 2);
            let x = SegmentModel { marker: m, payload: Seq::empty() };
            assert(o.segs == seq![x] + o2.segs);
            assert((seq![x] + o2.segs)[0] == x);
            assert((seq![x] + o2.segs).drop_first() =~= o2.segs);
            assert(enc_segs(o.segs, false) == enc_seg(x) + enc_segs(o2.segs, false));
            assert(enc_seg(x) =~= s.subrange(i, i + 2));
            lemma_split_suffix(s, i, i + 2);
            assert(enc_segs(o.segs, false) + o.scan_data =~= s.subrange(i, s.len() as int));
        } else {
            assert(i + 4 <= s.len());
            let l = be16(s[i + 2], s[i + 3]);
            assert(l >= 2 && i + 2 + l <= s.len());
            if m == Marker::StartOfScan {
                assert(o.segs == Seq::<SegmentModel>::empty());
                assert(enc_segs(o.segs, false) =~= Seq::<u8>::empty());
                assert(b == 0xDA);
                assert(o.scan_data == seq![0xFFu8, 0xDAu8] + s.skip(i + 2));
                assert(enc_segs(o.segs, false) + o.scan_data =~= s.subrange(i, s.len() as int));
            } else {
                assert(scan_from(s, i + 2 + l) is Ok);
                let o2 = scan_from(s, i + 2 + l)->Ok_0;
                assert(o2.canonical && o.scan_data == o2.scan_data);
                lemma_scan_reconstruct(s, i + 2 + l);
                let x = SegmentModel { marker: m, payload: s.subrange(i + 4, i + 2 + l) };
                assert(o.segs == seq![x] + o2.segs);
                assert((seq![x] + o2.segs)[0] == x);
                assert((seq![x] + o2.segs).drop_first() =~= o2.segs);
                assert(enc_segs(o.segs, false) == enc_seg(x) + enc_segs(o2.segs, false));
                let pl = x.payload.len() as int;
                assert(pl == l - 2);
                assert((pl + 2) / 256 == s[i + 2] as int && (pl + 2) % 256 == s[i + 3] as int)
                    by (nonlinear_arith)
                    requires
                        pl + 2 == (s[i + 2] as int) * 256 + (s[i + 3] as int),
                        0 <= (s[i + 3] as int) < 256,
                        0 <= (s[i + 2] as int);
                assert(enc_seg(x) =~= s.subrange(i, i + 4) + s.subrange(i + 4, i + 2 + l));
                lemma_split_suffix(s, i, i + 4);
                lemma_split_suffix(s, i + 4, i + 2 + l);
                assert(enc_segs(o.segs, false) + o.scan_data =~= s.subrange(i, s.len() as int));
            }
        }
    }
}

/// Round trip: parsing a stream that carries no fill bytes and rewriting it
/// without dropping anything reproduces the original byte stream exactly —
/// same segment order, same length fields, identical scan data.
pub proof fn lemma_round_trip(s: Seq<u8>)
    requires
        parse_image(s) is Ok,
        parse_canonical(s),
    ensures
        write_bytes(parse_image(s)->Ok_0, false) == s,
{
    let m = parse_image(s)->Ok_0;
    let o = scan_from(s, 2)->Ok_0;
    lemma_scan_reconstruct(s, 2);
    assert(m.leading_blocks == o.segs && m.scan_data == o.scan_data);
    let soi = seq![0xFFu8, 0xD8u8];
    assert(write_bytes(m, false) == soi + enc_segs(o.segs, false) + o.scan_data);
    assert(soi + enc_segs(o.segs, false) + o.scan_data =~= soi + (enc_segs(o.segs, false)
        + o.scan_data));
    assert(soi + (enc_segs(o.segs, false) + o.scan_data) == soi + s.subrange(2, s.len() as int));
    assert(soi + s.subrange(2, s.len() as int) =~= s);
}

/// Every well-formed segment list with a well-formed scan range behind it is
/// scanned back to exactly that list and range, with no fill bytes seen.
proof fn lemma_scan_of_encoded(t: Seq<u8>, i: int, segs: Seq<SegmentModel>, sd: Seq<u8>)
    requires
        0 <= i <= t.len(),
        forall|k: int| 0 <= k < segs.len() ==> seg_wf(#[trigger] segs[k]),
        scan_wf(sd),
        t.subrange(i, t.len() as int) == enc_segs(segs, false) + sd,
    ensures
        scan_from(t, i) == Ok::<ScanOut, ParseError>(
            ScanOut { segs: segs, scan_data: sd, canonical: true },
        ),
    decreases segs.len(),
{
    if segs.len() == 0 {
        assert(enc_segs(segs, false) =~= Seq::<u8>::empty());
        assert(Seq::<u8>::empty() + sd =~= sd);
        assert(t.subrange(i, t.len() as int) == sd);
        lemma_concat_split(t, i, sd, Seq::<u8>::empty());
        assert(t[i] == sd[0] && t[i + 1] == sd[1] && t[i + 2] == sd[2] && t[i + 3] == sd[3]) by {
            assert(t[i + 0] == sd[0]);
            assert(t[i + 1] == sd[1]);
            assert(t[i + 2] == sd[2]);
            assert(t[i + 3] == sd[3]);
        }
        assert(t[i] == 0xFF && t[i + 1] == 0xDA);
        assert(marker_of_code(0xDA) == Marker::StartOfScan);
        let l = be16(t[i + 2], t[i + 3]);
        assert(l >= 2 && i + 2 + l <= t.len());
        assert(scan_from(t, i) is Ok);
        let o = scan_from(t, i)->Ok_0;
        assert(o.scan_data == seq![0xFFu8, 0xDAu8] + t.skip(i + 2));
        assert(o.scan_data =~= sd);
        assert(o =~= ScanOut { segs: segs, scan_data: sd, canonical: true });
    } else {
        let x = segs[0];
        let rest = segs.drop_first();
        assert(seg_wf(x));
        crate::jpeg::lemma_marker_of_code_of_marker(x.marker);
        let code = marker_code(x.marker);
        assert(enc_segs(segs, false) == enc_seg(x) + enc_segs(rest, false));
        let e = enc_seg(x);
        let tail = enc_segs(rest, false) + sd;
        assert(t.subrange(i, t.len() as int) =~= e + tail);
        lemma_concat_split(t, i, e, tail);
        let next = i + e.len();
        assert(forall|k: int| 0 <= k < rest.len() ==> rest[k] == segs[k + 1]);
        lemma_scan_of_encoded(t, next, rest, sd);
        assert(t[i + 0] == e[0] && t[i + 1] == e[1]);
        assert(t[i] == 0xFF && t[i + 1] == code) by {
            assert(t[i + 0] == t[i]);
        }
        assert(code != 0x00 && code != 0xFF && marker_of_code(code) == x.marker);
        if spec_standalone(x.marker) {
            assert(e.len() == 2);
            assert(scan_from(t, i + 2) == Ok::<ScanOut, ParseError>(
                ScanOut { segs: rest, scan_data: sd, canonical: true },
            ));
            assert(scan_from(t, i) is Ok);
            let o = scan_from(t, i)->Ok_0;
            assert(x.payload =~= Seq::<u8>::empty());
            assert(o.segs == seq![
                SegmentModel { marker: x.marker, payload: Seq::<u8>::empty() },
            ] + rest);
            assert(o.segs =~= segs);
            assert(o =~= ScanOut { segs: segs, scan_data: sd, canonical: true });
        } else {
            let pl = x.payload.len() as int;
            assert(e.len() == 4 + pl);
            assert(t[i + 2] == e[2] && t[i + 3] == e[3]);
            assert(e[2] == ((pl + 2) / 256) as u8 && e[3] == ((pl + 2) % 256) as u8);
            assert(0 <= (pl + 2) / 256 < 256 && 0 <= (pl + 2) % 256 < 256 && ((pl + 2) / 256) * 256
                + ((pl + 2) % 256) == pl + 2) by (nonlinear_arith)
                requires
                    0 <= pl,
                    pl + 2 <= 0xFFFF;
            let l = be16(t[i + 2], t[i + 3]);
            assert(l == pl + 2);
            assert(i + 2 + l == next && next <= t.len());
            assert(x.marker != Marker::StartOfScan);
            assert forall|k: int| 0 <= k < pl implies t.subrange(i + 4, i + 2 + l)[k]
                == x.payload[k] by {
                assert(t[i + (4 + k)] == e[4 + k]);
                assert(e[4 + k] == x.payload[k]);
            }
            assert(t.subrange(i + 4, i + 2 + l) =~= x.payload);
            assert(scan_from(t, next) == Ok::<ScanOut, ParseError>(
                ScanOut { segs: rest, scan_data: sd, canonical: true },
            ));
            assert(scan_from(t, i) is Ok);
            let o = scan_from(t, i)->Ok_0;
            assert(o.segs == seq![
                SegmentModel { marker: x.marker, payload: t.subrange(i + 4, i + 2 + l) },
            ] + rest);
            assert(o.segs =~= segs);
            assert(o =~= ScanOut { segs: segs, scan_data: sd, canonical: true });
        }
    }
}

/// A start-of-frame segment the classifier accepts.
pub open spec fn sof_ok(x: SegmentModel) -> bool {
    x.marker matches Marker::StartOfFrame(_) ==> {
        &&& x.payload.len() >= 6
        &&& be16(x.payload[3], x.payload[4]) != 0
        &&& be16(x.payload[1], x.payload[2]) != 0
    }
}

/// Whether a segment list holds a start-of-frame segment.
pub open spec fn has_frame(segs: Seq<SegmentModel>) -> bool {
    exists|k: int|
        0 <= k < segs.len() && (#[trigger] segs[k].marker) matches Marker::StartOfFrame(_)
}

/// The classifier fold succeeds exactly when every start-of-frame segment is
/// acceptable, and it has seen a frame exactly when one was there to see.
proof fn lemma_fold_meta_ok(acc: MetaAcc, segs: Seq<SegmentModel>)
    ensures
        fold_meta(acc, segs) is Ok <==> (forall|k: int|
            0 <= k < segs.len() ==> sof_ok(#[trigger] segs[k])),
        fold_meta(acc, segs) is Ok ==> (fold_meta(acc, segs)->Ok_0).have_frame == (acc.have_frame
            || has_frame(segs)),
    decreases segs.len(),
{
    if segs.len() == 0 {
        assert(!has_frame(segs));
    } else {
        let x = segs[0];
        let rest = segs.drop_first();
        assert(forall|k: int| 0 <= k < rest.len() ==> rest[k] == segs[k + 1]);
        match apply_seg(acc, x) {
            Ok(acc2) => {
                assert(fold_meta(acc, segs) == fold_meta(acc2, rest));
                lemma_fold_meta_ok(acc2, rest);
                assert(sof_ok(x));
                assert(acc2.have_frame == (acc.have_frame || x.marker matches Marker::StartOfFrame(
                    _,
                )));
                if fold_meta(acc2, rest) is Ok {
                    assert forall|k: int| 0 <= k < segs.len() implies sof_ok(
                        #[trigger] segs[k],
                    ) by {
                        if k >= 1 {
                            assert(segs[k] == rest[k - 1] && sof_ok(rest[k - 1]));
                        }
                    }
                    // the have_frame bookkeeping
                    if has_frame(rest) {
                        let k = choose|k: int|
                            0 <= k < rest.len() && (#[trigger] rest[k].marker) matches
                                Marker::StartOfFrame(_);
                        assert(segs[k + 1] == rest[k]);
                        assert(has_frame(segs));
                    }
                    if x.marker matches Marker::StartOfFrame(_) {
                        assert(has_frame(segs));
                    }
                    if has_frame(segs) && !(x.marker matches Marker::StartOfFrame(_)) {
                        let k = choose|k: int|
                            0 <= k < segs.len() && (#[trigger] segs[k].marker) matches
                                Marker::StartOfFrame(_);
                        assert(k >= 1);
                        assert(rest[k - 1] == segs[k]);
                        assert(has_frame(rest));
                    }
                } else {
                    let k = choose|k: int| 0 <= k < rest.len() && !sof_ok(#[trigger] rest[k]);
                    assert(segs[k + 1] == rest[k]);
                    assert(!sof_ok(segs[k + 1]));
                }
            },
            Err(_) => {
                assert(!sof_ok(x));
            },
        }
    }
}

/// Filtering keeps every required segment: each one reappears in the kept
/// list.
pub proof fn lemma_filter_keeps_required(segs: Seq<SegmentModel>, k: int)
    requires
        0 <= k < segs.len(),
        spec_required(segs[k].marker),
    ensures
        kept_segs(segs).contains(segs[k]),
    decreases segs.len(),
{
    let rest = segs.drop_first();
    if k == 0 {
        assert(kept_segs(segs)[0] == segs[0]);
    } else {
        assert(rest[k - 1] == segs[k]);
        lemma_filter_keeps_required(rest, k - 1);
        let j = choose|j: int| 0 <= j < kept_segs(rest).len() && kept_segs(rest)[j] == segs[k];
        if spec_required(segs[0].marker) {
            assert(kept_segs(segs)[j + 1] == kept_segs(rest)[j]);
        } else {
            assert(kept_segs(segs)[j] == kept_segs(rest)[j]);
        }
    }
}

/// Filtering invents nothing: every kept segment is one of the originals,
/// and it is required.
pub proof fn lemma_kept_is_subset(segs: Seq<SegmentModel>, j: int)
    requires
        0 <= j < kept_segs(segs).len(),
    ensures
        segs.contains(kept_segs(segs)[j]),
        spec_required(kept_segs(segs)[j].marker),
    decreases segs.len(),
{
    let rest = segs.drop_first();
    assert(forall|k: int| 0 <= k < rest.len() ==> rest[k] == segs[k + 1]);
    if spec_required(segs[0].marker) {
        assert(kept_segs(segs)[0] == segs[0]);
        if j == 0 {
            assert(segs.contains(segs[0]));
        } else {
            assert(kept_segs(segs)[j] == kept_segs(rest)[j - 1]);
            lemma_kept_is_subset(rest, j - 1);
            let i = choose|i: int| 0 <= i < rest.len() && rest[i] == kept_segs(rest)[j - 1];
            assert(segs[i + 1] == kept_segs(segs)[j]);
        }
    } else {
        assert(kept_segs(segs)[j] == kept_segs(rest)[j]);
        lemma_kept_is_subset(rest, j);
        let i = choose|i: int| 0 <= i < rest.len() && rest[i] == kept_segs(rest)[j];
        assert(segs[i + 1] == kept_segs(segs)[j]);
    }
}

/// Dropping the optional segments while encoding is the same as filtering
/// first and then encoding whichever way.
proof fn lemma_enc_drop_is_enc_kept(segs: Seq<SegmentModel>, drop_optional: bool)
    ensures
        enc_segs(segs, true) == enc_segs(kept_segs(segs), drop_optional),
    decreases segs.len(),
{
    if segs.len() == 0 {
        assert(kept_segs(segs) == Seq::<SegmentModel>::empty());
    } else {
        let rest = segs.drop_first();
        lemma_enc_drop_is_enc_kept(rest, drop_optional);
        if spec_required(segs[0].marker) {
            assert(kept_segs(segs) == seq![segs[0]] + kept_segs(rest));
            assert(kept_segs(segs)[0] == segs[0]);
            assert(kept_segs(segs).drop_first() =~= kept_segs(rest));
        }
    }
}

/// Filtering a filtered list changes nothing.
proof fn lemma_kept_idempotent(segs: Seq<SegmentModel>)
    ensures
        kept_segs(kept_segs(segs)) == kept_segs(segs),
    decreases segs.len(),
{
    if segs.len() == 0 {
    } else {
        let rest = segs.drop_first();
        lemma_kept_idempotent(rest);
        if spec_required(segs[0].marker) {
            assert(kept_segs(segs)[0] == segs[0]);
            assert(kept_segs(segs).drop_first() =~= kept_segs(rest));
            assert(kept_segs(kept_segs(segs)) =~= kept_segs(segs));
        }
    }
}

/// Rewriting a well-formed descriptor with "drop optional" set and parsing
/// the output succeeds, and yields exactly the kept segments and the
/// untouched scan range.
pub proof fn lemma_reparse(m: ImageModel)
    requires
        image_wf(m),
        forall|k: int| 0 <= k < m.leading_blocks.len() ==> sof_ok(#[trigger] m.leading_blocks[k]),
        has_frame(kept_segs(m.leading_blocks)),
    ensures
        parse_image(write_bytes(m, true)) is Ok,
        (parse_image(write_bytes(m, true))->Ok_0).leading_blocks == kept_segs(m.leading_blocks),
        (parse_image(write_bytes(m, true))->Ok_0).scan_data == m.scan_data,
{
    let t = write_bytes(m, true);
    let kept = kept_segs(m.leading_blocks);
    lemma_enc_drop_is_enc_kept(m.leading_blocks, false);
    assert(t == seq![0xFFu8, 0xD8u8] + enc_segs(m.leading_blocks, true) + m.scan_data);
    assert(t.subrange(2, t.len() as int) =~= enc_segs(kept, false) + m.scan_data);
    assert forall|k: int| 0 <= k < kept.len() implies seg_wf(#[trigger] kept[k]) && sof_ok(
        kept[k],
    ) by {
        lemma_kept_is_subset(m.leading_blocks, k);
        let i = choose|i: int| 0 <= i < m.leading_blocks.len() && m.leading_blocks[i] == kept[k];
        assert(seg_wf(m.leading_blocks[i]) && sof_ok(m.leading_blocks[i]));
    }
    lemma_scan_of_encoded(t, 2, kept, m.scan_data);
    assert(t[0] == 0xFF && t[1] == 0xD8);
    lemma_fold_meta_ok(init_meta(), kept);
    assert(fold_meta(init_meta(), kept) is Ok);
    assert((fold_meta(init_meta(), kept)->Ok_0).have_frame);
    assert(parse_image(t) is Ok);
}

/// A successful parse yields a well-formed descriptor whose start-of-frame
/// segments are all acceptable and include at least one frame.
pub proof fn lemma_parse_wf(s: Seq<u8>)
    requires
        parse_image(s) is Ok,
    ensures
        image_wf(parse_image(s)->Ok_0),
        forall|k: int|
            0 <= k < (parse_image(s)->Ok_0).leading_blocks.len() ==> sof_ok(
                #[trigger] (parse_image(s)->Ok_0).leading_blocks[k],
            ),
        has_frame((parse_image(s)->Ok_0).leading_blocks),
{
    let m = parse_image(s)->Ok_0;
    lemma_scan_wf(s, 2);
    lemma_fold_meta_ok(init_meta(), m.leading_blocks);
}

/// Everything the scanner yields is well formed: segments the writer can
/// re-emit and a scan range that starts with a start-of-scan segment.
proof fn lemma_scan_wf(s: Seq<u8>, i: int)
    requires
        0 <= i <= s.len(),
        scan_from(s, i) is Ok,
    ensures
        forall|k: int|
            0 <= k < (scan_from(s, i)->Ok_0).segs.len() ==> seg_wf(
                #[trigger] (scan_from(s, i)->Ok_0).segs[k],
            ),
        scan_wf((scan_from(s, i)->Ok_0).scan_data),
    decreases s.len() - i,
{
    let o = scan_from(s, i)->Ok_0;
    let b = s[i + 1];
    if b == 0xFF {
        lemma_scan_wf(s, i + 1);
    } else {
        let m = marker_of_code(b);
        crate::jpeg::lemma_code_of_marker_of_code(b);
        if spec_standalone(m) {
            lemma_scan_wf(s, i + 2);
            let o2 = scan_from(s, i + 2)->Ok_0;
            assert(forall|k: int| 1 <= k < o.segs.len() ==> o.segs[k] == o2.segs[k - 1]);
            assert(seg_wf(o.segs[0]));
        } else {
            let l = be16(s[i + 2], s[i + 3]);
            if m == Marker::StartOfScan {
                assert(o.scan_data[0] == 0xFF && o.scan_data[1] == 0xDA);
                assert(o.scan_data[2] == s[i + 2] && o.scan_data[3] == s[i + 3]);
            } else {
                lemma_scan_wf(s, i + 2 + l);
                let o2 = scan_from(s, i + 2 + l)->Ok_0;
                assert(forall|k: int| 1 <= k < o.segs.len() ==> o.segs[k] == o2.segs[k - 1]);
                assert(seg_wf(o.segs[0]));
            }
        }
    }
}

/// Idempotent filtering: rewriting with "drop optional" set, parsing the
/// result and rewriting once more with "drop optional" set yields the same
/// bytes as the first rewrite.
pub proof fn lemma_filter_idempotent(s: Seq<u8>)
    requires
        parse_image(s) is Ok,
    ensures
        parse_image(write_bytes(parse_image(s)->Ok_0, true)) is Ok,
        write_bytes(parse_image(write_bytes(parse_image(s)->Ok_0, true))->Ok_0, true)
            == write_bytes(parse_image(s)->Ok_0, true),
{
    let m = parse_image(s)->Ok_0;
    lemma_parse_wf(s);
    assert(has_frame(kept_segs(m.leading_blocks))) by {
        let k = choose|k: int|
            0 <= k < m.leading_blocks.len() && (#[trigger] m.leading_blocks[k].marker) matches
                Marker::StartOfFrame(_);
        assert(spec_required(m.leading_blocks[k].marker));
        lemma_filter_keeps_required(m.leading_blocks, k);
        let j = choose|j: int|
            0 <= j < kept_segs(m.leading_blocks).len() && kept_segs(m.leading_blocks)[j]
                == m.leading_blocks[k];
        assert(kept_segs(m.leading_blocks)[j].marker matches Marker::StartOfFrame(_));
    }
    lemma_reparse(m);
    let m2 = parse_image(write_bytes(m, true))->Ok_0;
    lemma_kept_idempotent(m.leading_blocks);
    lemma_enc_drop_is_enc_kept(m.leading_blocks, true);
    lemma_enc_drop_is_enc_kept(kept_segs(m.leading_blocks), true);
    assert(write_bytes(m2, true) =~= write_bytes(m, true));
}

/// Filtering the descriptor in place and then rewriting everything emits
/// the same bytes as rewriting the unfiltered descriptor with
/// "drop optional" set — and filtering it again changes nothing more.
pub proof fn lemma_filter_in_place_then_write(m: ImageModel, m2: ImageModel)
    requires
        m2.leading_blocks == kept_segs(m.leading_blocks),
        m2.scan_data == m.scan_data,
    ensures
        write_bytes(m2, false) == write_bytes(m, true),
        write_bytes(m2, true) == write_bytes(m, true),
{
    lemma_enc_drop_is_enc_kept(m.leading_blocks, false);
    lemma_enc_drop_is_enc_kept(m.leading_blocks, true);
}

/// However a descriptor is rewritten, the output still begins with the
/// start-of-image marker, and its tail is the scan range — with its
/// terminal end-of-image — byte for byte.
pub proof fn lemma_rewrite_preserves_structure(m: ImageModel, drop_optional: bool)
    ensures
        write_bytes(m, drop_optional).len() >= 2 + m.scan_data.len(),
        write_bytes(m, drop_optional).subrange(0, 2) == seq![0xFFu8, 0xD8u8],
        write_bytes(m, drop_optional).skip(
            write_bytes(m, drop_optional).len() - m.scan_data.len(),
        ) == m.scan_data,
{
    let t = write_bytes(m, drop_optional);
    assert(t.subrange(0, 2) =~= seq![0xFFu8, 0xD8u8]);
    assert(t.skip(t.len() - m.scan_data.len()) =~= m.scan_data);
}

} // verus!
