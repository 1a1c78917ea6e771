//! The QP7 mode: records of 12 or 56 bytes, in segments that blocks without
//! frames part.

use super::container::{block_frames, frame_total, payload};
use super::container::{DS2_BLOCK_HEADER_SIZE, DS2_BLOCK_SIZE, DS2_PAYLOAD_SIZE};
use super::qp::first_frame_at;
use super::sp::frames_view;
use crate::error::{DecodeError, ErrorModel};
use crate::text::{decimal, push_decimal};
use vstd::prelude::*;
use vstd::slice::{slice_subrange, slice_to_vec};
use vstd::string::*;

verus! {

/// The size of a short record.
pub const DS2_QP7_PACKET_SHORT_SIZE: usize = 12;

/// The size of a long record.
pub const DS2_QP7_PACKET_LONG_SIZE: usize = 56;

/// A stretch of records without a reset in between.
#[derive(Clone, Debug, PartialEq, Eq)]
pub struct Ds2Qp7Segment {
    /// The bytes of the records.
    pub records: Vec<Vec<u8>>,
    /// How many records there are.
    pub total_frames: usize,
    /// Whether the decoder has to start afresh.
    pub reset_before: bool,
}

/// The mathematical value of a [`Ds2Qp7Segment`].
pub struct Qp7SegmentModel {
    pub records: Seq<Seq<u8>>,
    pub total_frames: int,
    pub reset_before: bool,
}

impl View for Ds2Qp7Segment {
    type V = Qp7SegmentModel;

    open spec fn view(&self) -> Qp7SegmentModel {
        Qp7SegmentModel {
            records: frames_view(self.records@),
            total_frames: self.total_frames as int,
            reset_before: self.reset_before,
        }
    }
}

/// The values of a list of segments.
pub open spec fn qp7_segments_view(segments: Seq<Ds2Qp7Segment>) -> Seq<Qp7SegmentModel> {
    segments.map_values(|segment: Ds2Qp7Segment| segment@)
}

/// The size of the record at `pos`, which the top bit of its second byte tells.
pub open spec fn record_size(raw: Seq<u8>, pos: int) -> int {
    if raw[pos + 1] < 0x80 {
        12
    } else {
        56
    }
}

/// The record at `pos` and where it ends, or what is missing of it.
pub open spec fn record_at(raw: Seq<u8>, pos: int) -> Result<(Seq<u8>, int), ErrorModel> {
    if pos + 2 > raw.len() {
        Err(
            ErrorModel::Truncated(
                "incomplete format-7 selector at byte "@ + decimal(pos as nat),
            ),
        )
    } else if pos + record_size(raw, pos) > raw.len() {
        Err(ErrorModel::Truncated("incomplete format-7 record at byte "@ + decimal(pos as nat)))
    } else {
        let end = pos + record_size(raw, pos);
        Ok((raw.subrange(pos, end), end))
    }
}

/// The `n` records from `pos` on and where they end, or what is missing of the
/// first that is not complete.
pub open spec fn records_at(raw: Seq<u8>, pos: int, n: nat) -> Result<
    (Seq<Seq<u8>>, int),
    ErrorModel,
>
    decreases n,
{
    if n == 0 {
        Ok((Seq::empty(), pos))
    } else {
        match records_at(raw, pos, (n - 1) as nat) {
            Err(error) => Err(error),
            Ok((records, at)) => match record_at(raw, at) {
                Err(error) => Err(error),
                Ok((record, end)) => Ok((records.push(record), end)),
            },
        }
    }
}

/// The segments with the records of the open segment added, if there are any.
pub open spec fn with_records(
    segments: Seq<Qp7SegmentModel>,
    records: Seq<Seq<u8>>,
) -> Seq<Qp7SegmentModel> {
    if records.len() == 0 {
        segments
    } else {
        segments.push(
            Qp7SegmentModel {
                records,
                total_frames: records.len() as int,
                reset_before: segments.len() > 0,
            },
        )
    }
}

/// How far the records of a file have been read.
pub struct Qp7Progress {
    /// The segments that a block without frames has ended.
    pub segments: Seq<Qp7SegmentModel>,
    /// The records behind them.
    pub open: Seq<Seq<u8>>,
    /// Where in the payload the next record begins at the earliest.
    pub pos: int,
}

/// The larger of two positions.
pub open spec fn later(a: int, b: int) -> int {
    if a < b {
        b
    } else {
        a
    }
}

/// The records of the first `n` blocks. A block without frames ends the segment
/// and is skipped; in another block the records begin where its header says,
/// or where the records before it end if that is later.
pub open spec fn qp7_progress(data: Seq<u8>, header_size: int, raw: Seq<u8>, n: nat) -> Result<
    Qp7Progress,
    ErrorModel,
>
    decreases n,
{
    if n == 0 {
        Ok(Qp7Progress { segments: Seq::empty(), open: Seq::empty(), pos: 0 })
    } else {
        let bi = n - 1;
        match qp7_progress(data, header_size, raw, bi as nat) {
            Err(error) => Err(error),
            Ok(before) => if block_frames(data, header_size, bi) == 0 {
                Ok(
                    Qp7Progress {
                        segments: with_records(before.segments, before.open),
                        open: Seq::empty(),
                        pos: later(before.pos, n as int * 506),
                    },
                )
            } else {
                match records_at(
                    raw,
                    later(before.pos, first_frame_at(data, header_size, bi)),
                    block_frames(data, header_size, bi) as nat,
                ) {
                    Err(error) => Err(error),
                    Ok((records, end)) => Ok(
                        Qp7Progress {
                            segments: before.segments,
                            open: before.open + records,
                            pos: end,
                        },
                    ),
                }
            },
        }
    }
}

/// The segments of the first `n` blocks, or what is missing of the first record
/// that is not complete.
pub open spec fn qp7_segments(data: Seq<u8>, header_size: int, n: nat) -> Result<
    Seq<Qp7SegmentModel>,
    ErrorModel,
> {
    match qp7_progress(data, header_size, payload(data, header_size, n), n) {
        Err(error) => Err(error),
        Ok(end) => Ok(with_records(end.segments, end.open)),
    }
}

/// The number of frames in a list of segments.
pub open spec fn qp7_segment_frames(segments: Seq<Qp7SegmentModel>) -> int
    decreases segments.len(),
{
    if segments.len() == 0 {
        0
    } else {
        qp7_segment_frames(segments.drop_last()) + segments.last().total_frames
    }
}

/// Where a record is missing, it stays missing for those who ask for more.
proof fn lemma_records_error(raw: Seq<u8>, pos: int, k: nat, n: nat)
    requires
        k <= n,
        records_at(raw, pos, k) is Err,
    ensures
        records_at(raw, pos, n) == records_at(raw, pos, k),
    decreases n - k,
{
    if k < n {
        lemma_records_error(raw, pos, k, (n - 1) as nat);
    }
}

/// Where a record of a block is missing, it stays missing for all blocks.
proof fn lemma_progress_error(data: Seq<u8>, header_size: int, raw: Seq<u8>, k: nat, n: nat)
    requires
        k <= n,
        qp7_progress(data, header_size, raw, k) is Err,
    ensures
        qp7_progress(data, header_size, raw, n) is Err,
        qp7_progress(data, header_size, raw, n)->Err_0 == qp7_progress(
            data,
            header_size,
            raw,
            k,
        )->Err_0,
    decreases n - k,
{
    if k < n {
        lemma_progress_error(data, header_size, raw, k, (n - 1) as nat);
    }
}

/// Whether every record has the size of a short or of a long one.
pub open spec fn records_sized(records: Seq<Seq<u8>>) -> bool {
    forall|i: int|
        0 <= i < records.len() ==> (#[trigger] records[i]).len() == 12 || records[i].len() == 56
}

/// What holds of every segment: it is not empty, it says how many records it
/// has, all but the first start the decoder afresh, and its records are short
/// or long.
pub open spec fn qp7_segments_sound(segments: Seq<Qp7SegmentModel>) -> bool {
    forall|i: int|
        0 <= i < segments.len() ==> {
            let segment = #[trigger] segments[i];
            &&& segment.records.len() > 0
            &&& segment.total_frames == segment.records.len()
            &&& segment.reset_before == (i > 0)
            &&& records_sized(segment.records)
        }
}

/// Records are as many as asked for, short or long, and end in the payload.
proof fn lemma_records(raw: Seq<u8>, pos: int, n: nat)
    requires
        pos >= 0,
    ensures
        records_at(raw, pos, n) matches Ok((records, end)) ==> {
            &&& records.len() == n
            &&& records_sized(records)
            &&& pos <= end
            &&& n > 0 ==> end <= raw.len()
        },
    decreases n,
{
    if n > 0 {
        lemma_records(raw, pos, (n - 1) as nat);
    }
}

/// Ending the open segment keeps the segments sound and their frames counted.
proof fn lemma_with_records(segments: Seq<Qp7SegmentModel>, records: Seq<Seq<u8>>)
    requires
        qp7_segments_sound(segments),
        records_sized(records),
    ensures
        qp7_segments_sound(with_records(segments, records)),
        qp7_segment_frames(with_records(segments, records)) == qp7_segment_frames(segments)
            + records.len(),
{
    let more = with_records(segments, records);
    if records.len() > 0 {
        assert(more.drop_last() =~= segments);
    }
}

/// The blocks read so far have given as many records as they announce.
proof fn lemma_progress(data: Seq<u8>, header_size: int, raw: Seq<u8>, n: nat)
    ensures
        qp7_progress(data, header_size, raw, n) matches Ok(at) ==> {
            &&& at.pos >= 0
            &&& qp7_segments_sound(at.segments)
            &&& records_sized(at.open)
            &&& qp7_segment_frames(at.segments) + at.open.len() == frame_total(
                data,
                header_size,
                n,
            )
        },
    decreases n,
{
    if n > 0 {
        let bi = n - 1;
        lemma_progress(data, header_size, raw, bi as nat);
        if let Ok(before) = qp7_progress(data, header_size, raw, bi as nat) {
            lemma_with_records(before.segments, before.open);
            lemma_records(
                raw,
                later(before.pos, first_frame_at(data, header_size, bi)),
                block_frames(data, header_size, bi) as nat,
            );
        }
    }
}

/// Where all records are there, the segments hold exactly as many of them as
/// the blocks announce; no segment is empty, each counts its records, all but
/// the first start the decoder afresh, and every record has 12 or 56 bytes.
pub proof fn law_qp7_segments_sound(data: Seq<u8>, header_size: int, n: nat)
    ensures
        qp7_segments(data, header_size, n) matches Ok(segments) ==> {
            &&& qp7_segments_sound(segments)
            &&& qp7_segment_frames(segments) == frame_total(data, header_size, n)
        },
{
    let raw = payload(data, header_size, n);
    lemma_progress(data, header_size, raw, n);
    if let Ok(end) = qp7_progress(data, header_size, raw, n) {
        lemma_with_records(end.segments, end.open);
    }
}

/// The text that names a place in the payload.
fn text_at(what: &str, pos: usize) -> (text: String)
    ensures
        text@ == what@ + decimal(pos as nat),
{
    let mut text = what.to_string();
    push_decimal(&mut text, pos);
    text
}

/// The record at `pos` and where it ends.
fn read_record(raw: &[u8], pos: usize) -> (res: Result<(Vec<u8>, usize), DecodeError>)
    requires
        pos + 56 <= usize::MAX,
    ensures
        match record_at(raw@, pos as int) {
            Ok((record, end)) => {
                &&& res is Ok
                &&& res->Ok_0.0@ == record
                &&& res->Ok_0.1 == end
                &&& end <= raw@.len()
            },
            Err(error) => res is Err && res->Err_0@ == error,
        },
{
    if pos + 2 > raw.len() {
        return Err(
            DecodeError::Truncated(text_at("incomplete format-7 selector at byte ", pos)),
        );
    }
    let size: usize = if raw[pos + 1] < 0x80 {
        DS2_QP7_PACKET_SHORT_SIZE
    } else {
        DS2_QP7_PACKET_LONG_SIZE
    };
    if pos + size > raw.len() {
        return Err(DecodeError::Truncated(text_at("incomplete format-7 record at byte ", pos)));
    }
    Ok((slice_to_vec(slice_subrange(raw, pos, pos + size)), pos + size))
}

/// Appends the `n` records from `pos` on and tells where they end.
fn read_records(
    raw: &[u8],
    pos: usize,
    n: usize,
    records: &mut Vec<Vec<u8>>,
) -> (res: Result<usize, DecodeError>)
    requires
        pos + 56 <= usize::MAX,
        raw@.len() + 56 <= usize::MAX,
    ensures
        match records_at(raw@, pos as int, n as nat) {
            Ok((read, end)) => {
                &&& res is Ok
                &&& res->Ok_0 == end
                &&& frames_view(final(records)@) == frames_view(old(records)@) + read
                &&& n > 0 ==> end <= raw@.len()
            },
            Err(error) => res is Err && res->Err_0@ == error,
        },
{
    let mut at: usize = pos;
    let mut i: usize = 0;
    assert(frames_view(records@) + Seq::empty() =~= frames_view(records@));
    while i < n
        invariant
            pos + 56 <= usize::MAX,
            raw@.len() + 56 <= usize::MAX,
            i <= n,
            i == 0 ==> at == pos,
            i > 0 ==> at <= raw@.len(),
            records_at(raw@, pos as int, i as nat) is Ok,
            records_at(raw@, pos as int, i as nat)->Ok_0.1 == at,
            frames_view(records@) == frames_view(old(records)@) + records_at(
                raw@,
                pos as int,
                i as nat,
            )->Ok_0.0,
        decreases n - i,
    {
        let ghost read = records_at(raw@, pos as int, i as nat)->Ok_0.0;
        match read_record(raw, at) {
            Err(error) => {
                proof {
                    lemma_records_error(raw@, pos as int, (i + 1) as nat, n as nat);
                }
                return Err(error);
            },
            Ok((record, end)) => {
                let ghost before = frames_view(records@);
                let ghost bytes = record@;
                records.push(record);
                at = end;
                i += 1;
                assert(frames_view(records@) =~= before.push(bytes));
                assert(before.push(bytes) =~= frames_view(old(records)@) + read.push(bytes));
            },
        }
    }
    Ok(at)
}

/// Ends the open segment, unless it has no records.
fn close_segment(segments: &mut Vec<Ds2Qp7Segment>, records: Vec<Vec<u8>>)
    ensures
        qp7_segments_view(final(segments)@) == with_records(
            qp7_segments_view(old(segments)@),
            frames_view(records@),
        ),
{
    if !records.is_empty() {
        let segment = Ds2Qp7Segment {
            total_frames: records.len(),
            records,
            reset_before: segments.len() > 0,
        };
        let ghost value = segment@;
        segments.push(segment);
        assert(qp7_segments_view(segments@) =~= qp7_segments_view(old(segments)@).push(value));
    }
}

/// Cuts the payload of a file of the QP7 mode into segments of records.
pub(crate) fn split_qp7_segments(
    data: &[u8],
    header_size: usize,
    num_blocks: usize,
    raw: &[u8],
) -> (res: Result<Vec<Ds2Qp7Segment>, DecodeError>)
    requires
        512 <= header_size <= 0x10000,
        num_blocks > 0 ==> header_size + num_blocks * 512 <= data.len(),
        raw@ == payload(data@, header_size as int, num_blocks as nat),
        raw@.len() == num_blocks * 506,
    ensures
        match qp7_segments(data@, header_size as int, num_blocks as nat) {
            Ok(segments) => res is Ok && qp7_segments_view(res->Ok_0@) == segments,
            Err(error) => res is Err && res->Err_0@ == error,
        },
{
    let ghost hs = header_size as int;
    let mut segments: Vec<Ds2Qp7Segment> = Vec::new();
    let mut seg_records: Vec<Vec<u8>> = Vec::new();
    let mut raw_read_pos: usize = 0;
    let mut bi: usize = 0;
    assert(qp7_segments_view(segments@) =~= Seq::empty());
    assert(frames_view(seg_records@) =~= Seq::empty());
    while bi < num_blocks
        invariant
            512 <= header_size <= 0x10000,
            hs == header_size,
            num_blocks > 0 ==> header_size + num_blocks * 512 <= data.len(),
            raw@ == payload(data@, hs, num_blocks as nat),
            raw@.len() == num_blocks * 506,
            bi <= num_blocks,
            raw_read_pos <= raw@.len(),
            qp7_progress(data@, hs, raw@, bi as nat) is Ok,
            ({
                let at = qp7_progress(data@, hs, raw@, bi as nat)->Ok_0;
                &&& qp7_segments_view(segments@) == at.segments
                &&& frames_view(seg_records@) == at.open
                &&& raw_read_pos == at.pos
            }),
        decreases num_blocks - bi,
    {
        let bstart = header_size + bi * DS2_BLOCK_SIZE;
        let fc = data[bstart + 2] as usize;
        if fc == 0 {
            let mut closed: Vec<Vec<u8>> = Vec::new();
            std::mem::swap(&mut closed, &mut seg_records);
            close_segment(&mut segments, closed);
            let zero_end = (bi + 1) * DS2_PAYLOAD_SIZE;
            if raw_read_pos < zero_end {
                raw_read_pos = zero_end;
            }
            bi += 1;
            assert(frames_view(seg_records@) =~= Seq::empty());
        } else {
            let payload_off = (data[bstart + 1] as usize * 2).saturating_sub(
                DS2_BLOCK_HEADER_SIZE,
            );
            let frames_raw_start = bi * DS2_PAYLOAD_SIZE + payload_off;
            assert(frames_raw_start == first_frame_at(data@, hs, bi as int));
            if raw_read_pos < frames_raw_start {
                raw_read_pos = frames_raw_start;
            }
            match read_records(raw, raw_read_pos, fc, &mut seg_records) {
                Err(error) => {
                    proof {
                        lemma_progress_error(data@, hs, raw@, (bi + 1) as nat, num_blocks as nat);
                    }
                    return Err(error);
                },
                Ok(end) => {
                    raw_read_pos = end;
                },
            }
            bi += 1;
        }
    }
    close_segment(&mut segments, seg_records);
    Ok(segments)
}

/// The number of records in a list of segments.
pub(crate) fn count_qp7_frames(segments: &[Ds2Qp7Segment]) -> (total: usize)
    requires
        qp7_segments_sound(qp7_segments_view(segments@)),
        qp7_segment_frames(qp7_segments_view(segments@)) <= usize::MAX,
    ensures
        total == qp7_segment_frames(qp7_segments_view(segments@)),
{
    let ghost all = qp7_segments_view(segments@);
    let mut total: usize = 0;
    let mut i: usize = 0;
    assert(all.take(0) =~= Seq::empty());
    while i < segments.len()
        invariant
            all == qp7_segments_view(segments@),
            qp7_segments_sound(all),
            qp7_segment_frames(all) <= usize::MAX,
            i <= segments@.len(),
            total == qp7_segment_frames(all.take(i as int)),
        decreases segments@.len() - i,
    {
        proof {
            assert(all.take(i + 1).drop_last() =~= all.take(i as int));
            assert(all.take(i + 1).last() == segments@[i as int]@);
            lemma_frames_grow(all, (i + 1) as nat);
        }
        total += segments[i].total_frames;
        i += 1;
    }
    assert(all.take(i as int) =~= all);
    total
}

/// The first segments have no more frames than all.
proof fn lemma_frames_grow(segments: Seq<Qp7SegmentModel>, n: nat)
    requires
        n <= segments.len(),
        qp7_segments_sound(segments),
    ensures
        0 <= qp7_segment_frames(segments.take(n as int)) <= qp7_segment_frames(segments),
    decreases segments.len(),
{
    if segments.len() > 0 {
        let fewer = segments.drop_last();
        if n < segments.len() {
            lemma_frames_grow(fewer, n);
            assert(fewer.take(n as int) =~= segments.take(n as int));
        } else {
            lemma_frames_grow(fewer, (n - 1) as nat);
            assert(segments.take(n as int) =~= segments);
            assert(fewer.take(n - 1) =~= fewer);
        }
    } else {
        assert(segments.take(n as int) =~= segments);
    }
}

} // verus!
