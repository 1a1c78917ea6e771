//! What holds of the segments of the QP mode, said of the bytes of the file.

use super::container::{
    audio_start, block_count, block_frames, frame_total, lemma_audio_start_bound,
    lemma_frame_total_bound, payload,
};
use super::container_laws::law_payload_by_bytes;
use super::ds2::{demuxed, qp_stream_frames, segment_pieces, DemuxModel};
use super::qp::{
    closed_segments, first_frame_at, frame_pieces, frames_end_at, is_cut, lemma_run_has_bytes,
    lemma_run_is_continuous, qp_segments, run_begin, with_run, QpSegmentModel,
};
use crate::error::ErrorModel;
use vstd::prelude::*;

verus! {

/// A run begins at the first block or at a cut, and there is no cut inside.
proof fn lemma_run_uncut(data: Seq<u8>, start: int, bi: nat)
    ensures
        ({
            let begin = run_begin(data, start, bi);
            &&& begin <= bi
            &&& begin == 0 || is_cut(data, start, begin as int)
            &&& forall|m: int| begin < m <= bi ==> !#[trigger] is_cut(data, start, m)
        }),
    decreases bi,
{
    if bi > 0 && !is_cut(data, start, bi as int) {
        lemma_run_uncut(data, start, (bi - 1) as nat);
    }
}

/// Whether the segments are those of the runs of blocks `spans`, which hold all
/// blocks with frames before `upto`.
spec fn spans_fit(
    segments: Seq<QpSegmentModel>,
    spans: Seq<(int, int)>,
    data: Seq<u8>,
    start: int,
    raw: Seq<u8>,
    upto: int,
    n: int,
) -> bool {
    &&& spans.len() == segments.len()
    &&& forall|k: int|
        0 <= k < spans.len() ==> #[trigger] span_fits(
            segments,
            spans,
            k,
            data,
            start,
            raw,
            upto,
            n,
        )
    &&& forall|m: int|
        0 <= m < upto && #[trigger] block_frames(data, start, m) > 0 ==> covered(spans, m)
}

/// Whether one of the runs holds block `m`.
spec fn covered(spans: Seq<(int, int)>, m: int) -> bool {
    exists|k: int| 0 <= k < spans.len() && (#[trigger] spans[k]).0 <= m < spans[k].1
}

/// Whether segment `k` is that of the run of blocks `spans[k]`.
spec fn span_fits(
    segments: Seq<QpSegmentModel>,
    spans: Seq<(int, int)>,
    k: int,
    data: Seq<u8>,
    start: int,
    raw: Seq<u8>,
    upto: int,
    n: int,
) -> bool {
    let (b, c) = spans[k];
    let segment = segments[k];
    let from = first_frame_at(data, start, b);
    let end = frames_end_at(data, start, c - 1);
    let to = if end < raw.len() {
        end
    } else {
        raw.len() as int
    };
    &&& 0 <= b < c <= upto
    &&& k > 0 ==> spans[k - 1].1 <= b
    &&& b == 0 || is_cut(data, start, b)
    &&& c == n || is_cut(data, start, c)
    &&& forall|m: int| b < m < c ==> !#[trigger] is_cut(data, start, m)
    &&& segment.total_frames > 0
    &&& 56 * segment.total_frames == end - from
    &&& segment.stream == raw.subrange(from, to)
    &&& 0 <= from < to <= raw.len()
    &&& segment.reset_before == (k > 0)
}

/// One more run of blocks.
proof fn lemma_one_more_run(
    segments: Seq<QpSegmentModel>,
    spans: Seq<(int, int)>,
    data: Seq<u8>,
    start: int,
    raw: Seq<u8>,
    bi: nat,
    n: nat,
) -> (more: Seq<(int, int)>)
    requires
        bi < n,
        raw.len() == 506 * n,
        spans_fit(segments, spans, data, start, raw, run_begin(data, start, bi) as int, n as int),
        bi + 1 == n || is_cut(data, start, bi as int + 1),
    ensures
        spans_fit(
            with_run(segments, data, start, raw, run_begin(data, start, bi), bi + 1),
            more,
            data,
            start,
            raw,
            bi as int + 1,
            n as int,
        ),
{
    let begin = run_begin(data, start, bi);
    let after = with_run(segments, data, start, raw, begin, bi + 1);
    let frames = frame_total(data, start, bi + 1) - frame_total(data, start, begin);
    lemma_run_uncut(data, start, bi);
    lemma_run_is_continuous(data, start, bi);
    lemma_run_has_bytes(data, start, raw, bi, n);
    lemma_frame_total_bound(data, start, begin, bi + 1);
    if frames > 0 {
        let more = spans.push((begin as int, bi as int + 1));
        assert(after.len() == segments.len() + 1);
        assert forall|k: int| 0 <= k < more.len() implies #[trigger] span_fits(
            after,
            more,
            k,
            data,
            start,
            raw,
            bi as int + 1,
            n as int,
        ) by {
            if k < spans.len() {
                assert(span_fits(segments, spans, k, data, start, raw, begin as int, n as int));
                assert(more[k] == spans[k] && after[k] == segments[k]);
                if k > 0 {
                    assert(more[k - 1] == spans[k - 1]);
                }
            } else if k > 0 {
                assert(span_fits(segments, spans, k - 1, data, start, raw, begin as int, n as int));
                assert(more[k - 1] == spans[k - 1]);
            }
        }
        assert forall|m: int| 0 <= m < bi + 1 && #[trigger] block_frames(data, start, m)
            > 0 implies covered(more, m) by {
            if m < begin {
                assert(covered(spans, m));
                let k = choose|k: int|
                    0 <= k < spans.len() && (#[trigger] spans[k]).0 <= m < spans[k].1;
                assert(more[k] == spans[k]);
            } else {
                assert(more[spans.len() as int] == (begin as int, bi as int + 1));
            }
        }
        more
    } else {
        assert forall|k: int| 0 <= k < spans.len() implies #[trigger] span_fits(
            after,
            spans,
            k,
            data,
            start,
            raw,
            bi as int + 1,
            n as int,
        ) by {
            assert(span_fits(segments, spans, k, data, start, raw, begin as int, n as int));
        }
        assert forall|m: int| 0 <= m < bi + 1 && #[trigger] block_frames(data, start, m)
            > 0 implies covered(spans, m) by {
            if m >= begin {
                lemma_frame_total_bound(data, start, begin, m as nat);
                lemma_frame_total_bound(data, start, (m + 1) as nat, bi + 1);
                assert(frame_total(data, start, (m + 1) as nat) == frame_total(
                    data,
                    start,
                    m as nat,
                ) + block_frames(data, start, m));
            }
        }
        spans
    }
}

/// The runs of the segments that are closed before the run of block `bi`.
proof fn lemma_closed_spans(data: Seq<u8>, start: int, raw: Seq<u8>, bi: nat, n: nat) -> (spans:
    Seq<(int, int)>)
    requires
        bi < n,
        raw.len() == 506 * n,
    ensures
        spans_fit(
            closed_segments(data, start, raw, bi),
            spans,
            data,
            start,
            raw,
            run_begin(data, start, bi) as int,
            n as int,
        ),
    decreases bi,
{
    if bi == 0 {
        Seq::empty()
    } else {
        let before = lemma_closed_spans(data, start, raw, (bi - 1) as nat, n);
        if is_cut(data, start, bi as int) {
            lemma_one_more_run(
                closed_segments(data, start, raw, (bi - 1) as nat),
                before,
                data,
                start,
                raw,
                (bi - 1) as nat,
                n,
            )
        } else {
            before
        }
    }
}

/// The segments of a file of the QP mode, said of its bytes.
///
/// In the payload, which is what the blocks hold behind their six header bytes,
/// the first frame of block `b` begins at `506 * b` plus twice byte 1 of the block
/// less six, or plus nothing if that is negative. The frames of the block take 56
/// bytes for each that byte 2 announces. Segment `k` is made of the blocks from
/// `spans[k].0` to before `spans[k].1`. Each of them but the first goes on exactly
/// where the one before it ends. The first of them does not, unless it is the first
/// of the file, and neither does the block behind the last. The bytes of the segment are those of its
/// frames, as far as the payload goes. Every block with frames belongs to a
/// segment, the segments are in order, and all but the first start the decoder
/// afresh.
pub proof fn law_qp_segments_by_bytes(data: Seq<u8>, start: int, n: nat) -> (spans: Seq<(int, int)>)
    requires
        n > 0 ==> 0 <= start && start + 512 * n <= data.len(),
    ensures
        ({
            let segments = qp_segments(data, start, n);
            let first = |b: int|
                506 * b + if data[start + 512 * b + 1] < 3 {
                    0
                } else {
                    2 * data[start + 512 * b + 1] - 6
                };
            let end = |b: int| first(b) + 56 * data[start + 512 * b + 2];
            &&& spans.len() == segments.len()
            &&& forall|k: int|
                0 <= k < segments.len() ==> {
                    let (b, c) = #[trigger] spans[k];
                    let segment = segments[k];
                    &&& 0 <= b < c <= n
                    &&& k > 0 ==> spans[k - 1].1 <= b
                    &&& b == 0 || first(b) != end(b - 1)
                    &&& c == n || first(c) != end(c - 1)
                    &&& forall|m: int| b < m < c ==> #[trigger] first(m) == end(m - 1)
                    &&& segment.total_frames > 0
                    &&& 56 * segment.total_frames == end(c - 1) - first(b)
                    &&& segment.stream.len() == (if end(c - 1) < 506 * n {
                        end(c - 1)
                    } else {
                        506 * n as int
                    }) - first(b)
                    &&& forall|j: int|
                        0 <= j < segment.stream.len() ==> #[trigger] segment.stream[j]
                            == data[start + 512 * ((first(b) + j) / 506) + 6 + (first(b) + j) % 506]
                    &&& segment.reset_before == (k > 0)
                }
            &&& forall|m: int|
                0 <= m < n && #[trigger] first(m) < end(m) ==> exists|k: int|
                    0 <= k < spans.len() && (#[trigger] spans[k]).0 <= m < spans[k].1
        }),
{
    let raw = payload(data, start, n);
    let segments = qp_segments(data, start, n);
    let first = |b: int|
        506 * b + if data[start + 512 * b + 1] < 3 {
            0
        } else {
            2 * data[start + 512 * b + 1] - 6
        };
    let end = |b: int| first(b) + 56 * data[start + 512 * b + 2];
    law_payload_by_bytes(data, start, n);
    if n == 0 {
        Seq::empty()
    } else {
        let last = (n - 1) as nat;
        let closed = lemma_closed_spans(data, start, raw, last, n);
        let spans = lemma_one_more_run(
            closed_segments(data, start, raw, last),
            closed,
            data,
            start,
            raw,
            last,
            n,
        );
        assert forall|m: int| #[trigger] first_frame_at(data, start, m) == first(m) by {}
        assert forall|m: int| #[trigger] frames_end_at(data, start, m) == end(m) by {}
        assert forall|k: int| 0 <= k < segments.len() implies {
            let (b, c) = #[trigger] spans[k];
            let segment = segments[k];
            &&& 0 <= b < c <= n
            &&& k > 0 ==> spans[k - 1].1 <= b
            &&& b == 0 || first(b) != end(b - 1)
            &&& c == n || first(c) != end(c - 1)
            &&& forall|m: int| b < m < c ==> #[trigger] first(m) == end(m - 1)
            &&& segment.total_frames > 0
            &&& 56 * segment.total_frames == end(c - 1) - first(b)
            &&& segment.stream.len() == (if end(c - 1) < 506 * n {
                end(c - 1)
            } else {
                506 * n as int
            }) - first(b)
            &&& forall|j: int|
                0 <= j < segment.stream.len() ==> #[trigger] segment.stream[j] == data[start + 512
                    * ((first(b) + j) / 506) + 6 + (first(b) + j) % 506]
            &&& segment.reset_before == (k > 0)
        } by {
            assert(span_fits(segments, spans, k, data, start, raw, n as int, n as int));
            let (b, c) = spans[k];
            assert forall|m: int| b < m < c implies #[trigger] first(m) == end(m - 1) by {
                assert(!is_cut(data, start, m));
            }
            assert forall|j: int| 0 <= j < segments[k].stream.len() implies #[trigger] segments[k].stream[j]
                == data[start + 512 * ((first(b) + j) / 506) + 6 + (first(b) + j) % 506] by {
                assert(segments[k].stream[j] == raw[first(b) + j]);
            }
        }
        assert forall|m: int| 0 <= m < n && #[trigger] first(m) < end(m) implies exists|k: int|
            0 <= k < spans.len() && (#[trigger] spans[k]).0 <= m < spans[k].1 by {
            assert(block_frames(data, start, m) > 0);
            assert(covered(spans, m));
        }
        spans
    }
}

/// Where every block goes on exactly where the one before ends, said of the
/// header bytes, a recording with frames is one segment, the decoder does not
/// start afresh, and the segment announces all frames.
pub proof fn law_qp_continuous_recording(data: Seq<u8>, start: int, n: nat)
    requires
        0 <= start,
        start + 512 * n <= data.len(),
        frame_total(data, start, n) > 0,
        forall|o: int|
            #![trigger data[o]]
            start + 512 <= o < start + 512 * n && (o - start) % 512 == 0 ==> {
                let b = (o - start) / 512;
                let here = 506 * b + if data[o + 1] < 3 {
                    0
                } else {
                    2 * data[o + 1] - 6
                };
                let before = 506 * (b - 1) + if data[o - 511] < 3 {
                    0
                } else {
                    2 * data[o - 511] - 6
                };
                here == before + 56 * data[o - 510]
            },
    ensures
        qp_segments(data, start, n).len() == 1,
        !qp_segments(data, start, n)[0].reset_before,
        qp_segments(data, start, n)[0].total_frames == frame_total(data, start, n),
{
    let segments = qp_segments(data, start, n);
    let spans = law_qp_segments_by_bytes(data, start, n);
    let first = |b: int|
        506 * b + if data[start + 512 * b + 1] < 3 {
            0
        } else {
            2 * data[start + 512 * b + 1] - 6
        };
    let end = |b: int| first(b) + 56 * data[start + 512 * b + 2];
    assert forall|b: int| 0 < b < n implies #[trigger] first(b) == end(b - 1) by {
        let o = start + 512 * b;
        assert((o - start) % 512 == 0 && (o - start) / 512 == b);
        assert(0 <= data[o]);
        assert(o - 511 == start + 512 * (b - 1) + 1 && o - 510 == start + 512 * (b - 1) + 2);
    }
    super::qp::law_qp_segments_sound(data, start, n);
    if segments.len() > 1 {
        assert(spans[0].0 < spans[0].1 <= n);
        assert(spans[1].0 < spans[1].1 <= n && spans[0].1 <= spans[1].0);
        assert(first(spans[1].0) == end(spans[1].0 - 1));
    }
    if segments.len() == 1 {
        assert(segments.drop_last() =~= Seq::empty());
        assert(spans[0].0 < spans[0].1 <= n);
        reveal_with_fuel(super::qp::segment_frames, 2);
    }
}

/// The frames of a file of the QP mode are the segments cut into pieces of 56
/// bytes, of which the last may be shorter: no more of them than the segment
/// announces, one segment behind the other. In the QP7 mode they are the records,
/// and in the SP mode there are none.
pub proof fn law_qp_frames_by_bytes(data: Seq<u8>)
    ensures
        qp_stream_frames(data) == match demuxed(data) {
            Err(error) => Err::<Seq<Seq<u8>>, ErrorModel>(error),
            Ok(DemuxModel::QpSegments { segments, total_frames: _ }) => Ok(
                segments.map_values(
                    |segment: QpSegmentModel|
                        {
                            let len = segment.stream.len() as int;
                            let pieces = (len + 55) / 56;
                            Seq::new(
                                (if pieces < segment.total_frames {
                                    pieces
                                } else {
                                    segment.total_frames
                                }) as nat,
                                |i: int|
                                    segment.stream.subrange(
                                        56 * i,
                                        if 56 * i + 56 < len {
                                            56 * i + 56
                                        } else {
                                            len
                                        },
                                    ),
                            )
                        },
                ).flatten(),
            ),
            Ok(DemuxModel::Qp7Segments { segments, total_frames: _ }) => Ok(
                segments.map_values(
                    |segment: super::qp7::Qp7SegmentModel| segment.records,
                ).flatten(),
            ),
            Ok(DemuxModel::Sp { packets: _, total_frames: _ }) => Ok(Seq::empty()),
        },
{
    match demuxed(data) {
        Ok(DemuxModel::QpSegments { segments, total_frames: _ }) => {
            let start = audio_start(data);
            let n = block_count(data, start);
            lemma_audio_start_bound(data);
            super::qp::law_qp_segments_sound(data, start, n);
            assert forall|k: int| 0 <= k < segments.len() implies (
            #[trigger] segments[k]).total_frames >= 0 by {}
            lemma_segment_pieces(segments);
        },
        Ok(DemuxModel::Qp7Segments { segments, total_frames: _ }) => {
            lemma_segment_records(segments);
        },
        _ => {},
    }
}

/// The pieces of one segment.
spec fn cut(stream: Seq<u8>, n: int) -> Seq<Seq<u8>> {
    let len = stream.len() as int;
    let pieces = (len + 55) / 56;
    Seq::new(
        (if pieces < n {
            pieces
        } else {
            n
        }) as nat,
        |i: int|
            stream.subrange(
                56 * i,
                if 56 * i + 56 < len {
                    56 * i + 56
                } else {
                    len
                },
            ),
    )
}

/// The pieces of one segment, one after the other.
proof fn lemma_cut(stream: Seq<u8>, n: nat)
    ensures
        frame_pieces(stream, n) == cut(stream, n as int),
    decreases n,
{
    let pieces = frame_pieces(stream, n);
    if n == 0 || stream.len() == 0 {
        assert(pieces =~= cut(stream, n as int));
    } else if stream.len() <= 56 {
        assert(cut(stream, n as int).len() == 1);
        assert(cut(stream, n as int)[0] =~= stream);
        assert(pieces =~= cut(stream, n as int));
    } else {
        let rest = stream.skip(56);
        lemma_cut(rest, (n - 1) as nat);
        let all = cut(stream, n as int);
        let later = cut(rest, n - 1);
        assert(all.len() == later.len() + 1);
        assert(all[0] =~= stream.take(56));
        assert forall|i: int| 0 < i < all.len() implies #[trigger] all[i] == later[i - 1] by {
            assert(all[i] =~= later[i - 1]);
        }
        assert(pieces =~= all);
    }
}

/// The pieces of all segments.
proof fn lemma_segment_pieces(segments: Seq<QpSegmentModel>)
    requires
        forall|k: int| 0 <= k < segments.len() ==> (#[trigger] segments[k]).total_frames >= 0,
    ensures
        segment_pieces(segments) == segments.map_values(
            |segment: QpSegmentModel|
                {
                    let len = segment.stream.len() as int;
                    let pieces = (len + 55) / 56;
                    Seq::new(
                        (if pieces < segment.total_frames {
                            pieces
                        } else {
                            segment.total_frames
                        }) as nat,
                        |i: int|
                            segment.stream.subrange(
                                56 * i,
                                if 56 * i + 56 < len {
                                    56 * i + 56
                                } else {
                                    len
                                },
                            ),
                    )
                },
        ).flatten(),
    decreases segments.len(),
{
    let each = |segment: QpSegmentModel|
        {
            let len = segment.stream.len() as int;
            let pieces = (len + 55) / 56;
            Seq::new(
                (if pieces < segment.total_frames {
                    pieces
                } else {
                    segment.total_frames
                }) as nat,
                |i: int|
                    segment.stream.subrange(
                        56 * i,
                        if 56 * i + 56 < len {
                            56 * i + 56
                        } else {
                            len
                        },
                    ),
            )
        };
    let all = segments.map_values(each);
    if segments.len() > 0 {
        let fewer = segments.drop_last();
        assert forall|k: int| 0 <= k < fewer.len() implies (
        #[trigger] fewer[k]).total_frames >= 0 by {
            assert(fewer[k] == segments[k]);
        }
        lemma_segment_pieces(fewer);
        assert(segments.last() == segments[segments.len() - 1]);
        lemma_cut(segments.last().stream, segments.last().total_frames as nat);
        all.lemma_flatten_and_flatten_alt_are_equivalent();
        all.drop_last().lemma_flatten_and_flatten_alt_are_equivalent();
        assert(all.drop_last() =~= fewer.map_values(each));
        assert(all.last() =~= cut(
            segments.last().stream,
            segments.last().total_frames,
        ));
    }
}

/// The records of all segments.
proof fn lemma_segment_records(segments: Seq<super::qp7::Qp7SegmentModel>)
    ensures
        super::ds2::segment_records(segments) == segments.map_values(
            |segment: super::qp7::Qp7SegmentModel| segment.records,
        ).flatten(),
    decreases segments.len(),
{
    let each = |segment: super::qp7::Qp7SegmentModel| segment.records;
    let all = segments.map_values(each);
    if segments.len() > 0 {
        let fewer = segments.drop_last();
        lemma_segment_records(fewer);
        all.lemma_flatten_and_flatten_alt_are_equivalent();
        all.drop_last().lemma_flatten_and_flatten_alt_are_equivalent();
        assert(all.drop_last() =~= fewer.map_values(each));
    }
}

} // verus!
