//! The mathematical values of the types of this module are what their parts
//! hold, each at its own place.

use super::ds2::{DemuxModel, DemuxedDs2};
use super::qp::{qp_segments_view, Ds2QpSegment};
use super::qp7::{qp7_segments_view, Ds2Qp7Segment};
use super::sp::frames_view;
use vstd::prelude::*;

verus! {

/// The value of a list of frames is the list of their bytes.
pub proof fn law_frames_value(frames: Seq<Vec<u8>>)
    ensures
        frames_view(frames).len() == frames.len(),
        forall|i: int| 0 <= i < frames.len() ==> #[trigger] frames_view(frames)[i] == frames[i]@,
{
}

/// The value of a list of segments of the QP mode.
pub proof fn law_qp_segments_value(segments: Seq<Ds2QpSegment>)
    ensures
        qp_segments_view(segments).len() == segments.len(),
        forall|k: int|
            0 <= k < segments.len() ==> {
                let value = #[trigger] qp_segments_view(segments)[k];
                &&& value.stream == segments[k].stream@
                &&& value.total_frames == segments[k].total_frames
                &&& value.reset_before == segments[k].reset_before
            },
{
}

/// The value of a list of segments of the QP7 mode.
pub proof fn law_qp7_segments_value(segments: Seq<Ds2Qp7Segment>)
    ensures
        qp7_segments_view(segments).len() == segments.len(),
        forall|k: int|
            0 <= k < segments.len() ==> {
                let value = #[trigger] qp7_segments_view(segments)[k];
                &&& value.records.len() == segments[k].records@.len()
                &&& forall|i: int|
                    0 <= i < value.records.len() ==> #[trigger] value.records[i]
                        == segments[k].records@[i]@
                &&& value.total_frames == segments[k].total_frames
                &&& value.reset_before == segments[k].reset_before
            },
{
}

/// The value of the frames of a file.
pub proof fn law_demuxed_value(frames: DemuxedDs2)
    ensures
        match frames {
            DemuxedDs2::Sp { packets, total_frames } => frames@ == (DemuxModel::Sp {
                packets: frames_view(packets@),
                total_frames: total_frames as int,
            }),
            DemuxedDs2::QpSegments { segments, total_frames } => frames@ == (
            DemuxModel::QpSegments {
                segments: qp_segments_view(segments@),
                total_frames: total_frames as int,
            }),
            DemuxedDs2::Qp7Segments { segments, total_frames } => frames@ == (
            DemuxModel::Qp7Segments {
                segments: qp7_segments_view(segments@),
                total_frames: total_frames as int,
            }),
        },
{
}

} // verus!
