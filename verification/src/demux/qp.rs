//! The QP mode: a continuous stream of frames of 56 bytes, cut into segments
//! where a recording was edited.

use super::container::{
    block_frames, block_start, frame_total, lemma_frame_total_bound, lemma_payload_len, payload,
};
use super::container::{DS2_BLOCK_HEADER_SIZE, DS2_BLOCK_SIZE, DS2_PAYLOAD_SIZE};
use vstd::prelude::*;
use vstd::slice::{slice_subrange, slice_to_vec};

verus! {

/// The size of a frame of the QP mode.
pub const DS2_QP_FRAME_SIZE: usize = 56;

/// A stretch of the stream without a cut.
#[derive(Clone, Debug, PartialEq, Eq)]
pub struct Ds2QpSegment {
    /// The bytes of the frames.
    pub stream: Vec<u8>,
    /// How many frames the blocks announce.
    pub total_frames: usize,
    /// Whether the decoder has to start afresh.
    pub reset_before: bool,
}

/// The mathematical value of a [`Ds2QpSegment`].
pub struct QpSegmentModel {
    pub stream: Seq<u8>,
    pub total_frames: int,
    pub reset_before: bool,
}

impl View for Ds2QpSegment {
    type V = QpSegmentModel;

    open spec fn view(&self) -> QpSegmentModel {
        QpSegmentModel {
            stream: self.stream@,
            total_frames: self.total_frames as int,
            reset_before: self.reset_before,
        }
    }
}

/// The values of a list of segments.
pub open spec fn qp_segments_view(segments: Seq<Ds2QpSegment>) -> Seq<QpSegmentModel> {
    segments.map_values(|segment: Ds2QpSegment| segment@)
}

/// Where in the payload the first frame of block `bi` begins. Byte 1 of the
/// block header counts pairs of bytes from the start of the block.
pub open spec fn first_frame_at(data: Seq<u8>, header_size: int, bi: int) -> int {
    let pairs = data[block_start(header_size, bi) + 1] as int;
    bi * 506 + if pairs * 2 < 6 {
        0
    } else {
        pairs * 2 - 6
    }
}

/// Where in the payload the frames of block `bi` end.
pub open spec fn frames_end_at(data: Seq<u8>, header_size: int, bi: int) -> int {
    first_frame_at(data, header_size, bi) + 56 * block_frames(data, header_size, bi)
}

/// Whether the frames of block `bi` do not go on where those of the block
/// before it end.
pub open spec fn is_cut(data: Seq<u8>, header_size: int, bi: int) -> bool {
    bi > 0 && first_frame_at(data, header_size, bi) != frames_end_at(data, header_size, bi - 1)
}

/// The first block of the uncut run of blocks to which block `bi` belongs.
pub open spec fn run_begin(data: Seq<u8>, header_size: int, bi: nat) -> nat
    decreases bi,
{
    if bi == 0 || is_cut(data, header_size, bi as int) {
        bi
    } else {
        run_begin(data, header_size, (bi - 1) as nat)
    }
}

/// The segments with the run of blocks from `begin` to before `end` added. A run
/// without frames has no bytes and is dropped; a run whose last frames are not
/// complete ends with the payload; every segment but the first starts the
/// decoder afresh.
pub open spec fn with_run(
    segments: Seq<QpSegmentModel>,
    data: Seq<u8>,
    header_size: int,
    raw: Seq<u8>,
    begin: nat,
    end: nat,
) -> Seq<QpSegmentModel> {
    let frames = frame_total(data, header_size, end) - frame_total(data, header_size, begin);
    let from = first_frame_at(data, header_size, begin as int);
    let frames_end = frames_end_at(data, header_size, end - 1);
    let to = if frames_end < raw.len() {
        frames_end
    } else {
        raw.len() as int
    };
    if frames > 0 && to > from {
        segments.push(
            QpSegmentModel {
                stream: raw.subrange(from, to),
                total_frames: frames,
                reset_before: segments.len() > 0,
            },
        )
    } else {
        segments
    }
}

/// The segments of the runs that end before the run of block `bi`.
pub open spec fn closed_segments(
    data: Seq<u8>,
    header_size: int,
    raw: Seq<u8>,
    bi: nat,
) -> Seq<QpSegmentModel>
    decreases bi,
{
    if bi == 0 {
        Seq::empty()
    } else {
        let earlier = closed_segments(data, header_size, raw, (bi - 1) as nat);
        if is_cut(data, header_size, bi as int) {
            with_run(
                earlier,
                data,
                header_size,
                raw,
                run_begin(data, header_size, (bi - 1) as nat),
                bi,
            )
        } else {
            earlier
        }
    }
}

/// The segments of the first `n` blocks.
pub open spec fn qp_segments(data: Seq<u8>, header_size: int, n: nat) -> Seq<QpSegmentModel> {
    let raw = payload(data, header_size, n);
    if n == 0 {
        Seq::empty()
    } else {
        with_run(
            closed_segments(data, header_size, raw, (n - 1) as nat),
            data,
            header_size,
            raw,
            run_begin(data, header_size, (n - 1) as nat),
            n,
        )
    }
}

/// A run begins at or before each of its blocks.
proof fn lemma_run_begin(data: Seq<u8>, header_size: int, bi: nat)
    ensures
        run_begin(data, header_size, bi) <= bi,
    decreases bi,
{
    if bi > 0 && !is_cut(data, header_size, bi as int) {
        lemma_run_begin(data, header_size, (bi - 1) as nat);
    }
}

/// The frames of an uncut run lie one behind the other.
pub proof fn lemma_run_is_continuous(data: Seq<u8>, header_size: int, bi: nat)
    ensures
        ({
            let begin = run_begin(data, header_size, bi);
            &&& begin <= bi
            &&& frames_end_at(data, header_size, bi as int) == first_frame_at(
                data,
                header_size,
                begin as int,
            ) + 56 * (frame_total(data, header_size, bi + 1) - frame_total(
                data,
                header_size,
                begin,
            ))
        }),
    decreases bi,
{
    lemma_run_begin(data, header_size, bi);
    if bi > 0 && !is_cut(data, header_size, bi as int) {
        lemma_run_is_continuous(data, header_size, (bi - 1) as nat);
    }
}

/// Whether the bytes of a segment stand in the payload from `from` on, and are
/// those of all its frames unless the payload ends before.
pub open spec fn lies_at(segment: QpSegmentModel, raw: Seq<u8>, from: int) -> bool {
    let to = from + segment.stream.len();
    &&& 0 <= from < to <= raw.len()
    &&& segment.stream == raw.subrange(from, to)
    &&& segment.stream.len() <= 56 * segment.total_frames
    &&& segment.stream.len() == 56 * segment.total_frames || to == raw.len()
}

/// What holds of every segment of a file with the payload `raw`: it announces
/// frames and its bytes are those of the frames, and all segments but the first
/// start the decoder afresh.
pub open spec fn segments_sound(segments: Seq<QpSegmentModel>, raw: Seq<u8>) -> bool {
    forall|i: int|
        0 <= i < segments.len() ==> {
            let segment = #[trigger] segments[i];
            &&& segment.total_frames > 0
            &&& segment.reset_before == (i > 0)
            &&& exists|from: int| lies_at(segment, raw, from)
        }
}

/// The number of frames in a list of segments.
pub open spec fn segment_frames(segments: Seq<QpSegmentModel>) -> int
    decreases segments.len(),
{
    if segments.len() == 0 {
        0
    } else {
        segment_frames(segments.drop_last()) + segments.last().total_frames
    }
}

/// Whether there are `n` whole blocks behind the file header.
pub open spec fn has_blocks(data: Seq<u8>, header_size: int, n: nat) -> bool {
    n > 0 ==> 0 <= header_size && header_size + 512 * n <= data.len()
}

/// Every run begins in the payload of its first block, so that no run with
/// frames is without bytes.
pub proof fn lemma_run_has_bytes(data: Seq<u8>, header_size: int, raw: Seq<u8>, bi: nat, n: nat)
    requires
        bi < n,
        raw.len() == 506 * n,
    ensures
        first_frame_at(
            data,
            header_size,
            run_begin(data, header_size, bi) as int,
        ) < raw.len(),
{
    lemma_run_begin(data, header_size, bi);
}

/// Adding an uncut run keeps the segments sound.
proof fn lemma_with_run(
    segments: Seq<QpSegmentModel>,
    data: Seq<u8>,
    header_size: int,
    raw: Seq<u8>,
    bi: nat,
    n: nat,
)
    requires
        segments_sound(segments, raw),
        bi < n,
        raw.len() == 506 * n,
    ensures
        ({
            let begin = run_begin(data, header_size, bi);
            let more = with_run(segments, data, header_size, raw, begin, bi + 1);
            &&& segments_sound(more, raw)
            &&& segment_frames(more) == segment_frames(segments) + frame_total(
                data,
                header_size,
                bi + 1,
            ) - frame_total(data, header_size, begin)
        }),
{
    lemma_run_has_bytes(data, header_size, raw, bi, n);
    let begin = run_begin(data, header_size, bi);
    lemma_run_is_continuous(data, header_size, bi);
    lemma_frame_total_bound(data, header_size, begin, bi + 1);
    let more = with_run(segments, data, header_size, raw, begin, bi + 1);
    if more.len() > segments.len() {
        assert(more.drop_last() =~= segments);
        assert(lies_at(more.last(), raw, first_frame_at(data, header_size, begin as int)));
    }
}

/// The closed segments are sound and hold as many frames as the blocks before
/// the run that is still open.
proof fn lemma_closed_segments(data: Seq<u8>, header_size: int, raw: Seq<u8>, bi: nat, n: nat)
    requires
        bi < n,
        raw.len() == 506 * n,
    ensures
        segments_sound(closed_segments(data, header_size, raw, bi), raw),
        segment_frames(closed_segments(data, header_size, raw, bi)) == frame_total(
            data,
            header_size,
            run_begin(data, header_size, bi),
        ),
    decreases bi,
{
    if bi > 0 {
        lemma_closed_segments(data, header_size, raw, (bi - 1) as nat, n);
        if is_cut(data, header_size, bi as int) {
            lemma_with_run(
                closed_segments(data, header_size, raw, (bi - 1) as nat),
                data,
                header_size,
                raw,
                (bi - 1) as nat,
                n,
            );
        }
    }
}

/// Every segment announces at least one frame and holds the bytes of its frames
/// as far as the payload goes; all segments but the first start the decoder
/// afresh; and together they announce as many frames as the blocks.
pub proof fn law_qp_segments_sound(data: Seq<u8>, header_size: int, n: nat)
    requires
        has_blocks(data, header_size, n),
    ensures
        segments_sound(qp_segments(data, header_size, n), payload(data, header_size, n)),
        segment_frames(qp_segments(data, header_size, n)) == frame_total(data, header_size, n),
{
    let raw = payload(data, header_size, n);
    if n > 0 {
        lemma_payload_len(data, header_size, n);
        lemma_closed_segments(data, header_size, raw, (n - 1) as nat, n);
        lemma_with_run(
            closed_segments(data, header_size, raw, (n - 1) as nat),
            data,
            header_size,
            raw,
            (n - 1) as nat,
            n,
        );
    }
}

/// A recording without cuts whose frames all lie in the payload is one segment
/// that holds the whole bytes of all frames.
pub proof fn law_qp_uncut_recording_is_one_segment(data: Seq<u8>, header_size: int, n: nat)
    requires
        n > 0,
        forall|bi: int| 0 < bi < n ==> !#[trigger] is_cut(data, header_size, bi),
        frame_total(data, header_size, n) > 0,
        frames_end_at(data, header_size, n - 1) <= payload(data, header_size, n).len(),
    ensures
        qp_segments(data, header_size, n).len() == 1,
        qp_segments(data, header_size, n)[0].total_frames == frame_total(data, header_size, n),
        qp_segments(data, header_size, n)[0].stream.len() == 56 * frame_total(
            data,
            header_size,
            n,
        ),
        !qp_segments(data, header_size, n)[0].reset_before,
{
    lemma_uncut(data, header_size, payload(data, header_size, n), n, (n - 1) as nat);
    lemma_run_is_continuous(data, header_size, (n - 1) as nat);
    assert(frame_total(data, header_size, 0) == 0);
}

/// Without cuts all blocks belong to the first run.
proof fn lemma_uncut(data: Seq<u8>, header_size: int, raw: Seq<u8>, n: nat, bi: nat)
    requires
        bi < n,
        forall|b: int| 0 < b < n ==> !#[trigger] is_cut(data, header_size, b),
    ensures
        run_begin(data, header_size, bi) == 0,
        closed_segments(data, header_size, raw, bi) == Seq::<QpSegmentModel>::empty(),
    decreases bi,
{
    if bi > 0 {
        assert(!is_cut(data, header_size, bi as int));
        lemma_uncut(data, header_size, raw, n, (bi - 1) as nat);
    }
}

/// Adds the frames from `from` to `frames_end` as a segment, unless there are
/// none.
fn close_segment(
    segments: &mut Vec<Ds2QpSegment>,
    raw: &[u8],
    from: usize,
    frames_end: usize,
    frames: usize,
)
    ensures
        ({
            let to = if frames_end < raw@.len() {
                frames_end as int
            } else {
                raw@.len() as int
            };
            qp_segments_view(final(segments)@) == if frames > 0 && to > from {
                qp_segments_view(old(segments)@).push(
                    QpSegmentModel {
                        stream: raw@.subrange(from as int, to),
                        total_frames: frames as int,
                        reset_before: old(segments)@.len() > 0,
                    },
                )
            } else {
                qp_segments_view(old(segments)@)
            }
        }),
{
    let end: usize = if frames_end < raw.len() {
        frames_end
    } else {
        raw.len()
    };
    if frames > 0 && end > from {
        let segment = Ds2QpSegment {
            stream: slice_to_vec(slice_subrange(raw, from, end)),
            total_frames: frames,
            reset_before: segments.len() > 0,
        };
        let ghost value = segment@;
        segments.push(segment);
        assert(qp_segments_view(segments@) =~= qp_segments_view(old(segments)@).push(value));
    }
}

/// Cuts the payload of a file of the QP mode into segments.
pub(crate) fn split_qp_segments(
    data: &[u8],
    header_size: usize,
    num_blocks: usize,
    raw: &[u8],
) -> (segments: Vec<Ds2QpSegment>)
    requires
        512 <= header_size <= 0x10000,
        num_blocks > 0 ==> header_size + num_blocks * 512 <= data.len(),
        raw@ == payload(data@, header_size as int, num_blocks as nat),
    ensures
        qp_segments_view(segments@) == qp_segments(
            data@,
            header_size as int,
            num_blocks as nat,
        ),
{
    let ghost hs = header_size as int;
    let mut segments: Vec<Ds2QpSegment> = Vec::new();
    let mut seg_raw_start: usize = 0;
    let mut seg_frames: usize = 0;
    let mut raw_read_pos: usize = 0;
    let mut bi: usize = 0;
    assert(qp_segments_view(segments@) =~= Seq::empty());
    while bi < num_blocks
        invariant
            512 <= header_size <= 0x10000,
            hs == header_size,
            num_blocks > 0 ==> header_size + num_blocks * 512 <= data.len(),
            bi <= num_blocks,
            bi == 0 ==> segments@.len() == 0 && seg_frames == 0,
            bi > 0 ==> {
                let begin = run_begin(data@, hs, (bi - 1) as nat);
                &&& begin < bi
                &&& qp_segments_view(segments@) == closed_segments(
                    data@,
                    hs,
                    raw@,
                    (bi - 1) as nat,
                )
                &&& seg_raw_start == first_frame_at(data@, hs, begin as int)
                &&& seg_frames == frame_total(data@, hs, bi as nat) - frame_total(data@, hs, begin)
                &&& raw_read_pos == frames_end_at(data@, hs, bi - 1)
            },
        decreases num_blocks - bi,
    {
        let bstart = header_size + bi * DS2_BLOCK_SIZE;
        let b1 = data[bstart + 1] as usize;
        let fc = data[bstart + 2] as usize;
        let payload_off = (b1 * 2).saturating_sub(DS2_BLOCK_HEADER_SIZE);
        let frames_raw_start = bi * DS2_PAYLOAD_SIZE + payload_off;
        assert(frames_raw_start == first_frame_at(data@, hs, bi as int));
        proof {
            lemma_run_begin(data@, hs, bi as nat);
            if bi > 0 {
                lemma_frame_total_bound(
                    data@,
                    hs,
                    run_begin(data@, hs, (bi - 1) as nat),
                    bi as nat,
                );
            }
        }
        if bi == 0 {
            seg_raw_start = frames_raw_start;
            assert(qp_segments_view(segments@) =~= Seq::empty());
        } else if frames_raw_start != raw_read_pos {
            close_segment(&mut segments, raw, seg_raw_start, raw_read_pos, seg_frames);
            seg_raw_start = frames_raw_start;
            seg_frames = 0;
        }
        seg_frames += fc;
        raw_read_pos = frames_raw_start + fc * DS2_QP_FRAME_SIZE;
        bi += 1;
    }
    if num_blocks > 0 {
        close_segment(&mut segments, raw, seg_raw_start, raw_read_pos, seg_frames);
    }
    segments
}

/// The frames of a segment: pieces of 56 bytes, of which the last may be
/// shorter, and no more than `n`.
pub open spec fn frame_pieces(stream: Seq<u8>, n: nat) -> Seq<Seq<u8>>
    decreases n,
{
    if n == 0 || stream.len() == 0 {
        Seq::empty()
    } else if stream.len() <= 56 {
        seq![stream]
    } else {
        seq![stream.take(56)] + frame_pieces(stream.skip(56), (n - 1) as nat)
    }
}

} // verus!
