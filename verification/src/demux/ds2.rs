//! DS2 files as a whole.
//!
//! In the SP mode (0 and 1) the frames are packets of 42 bytes, in the QP mode
//! (6) they are a continuous stream in segments, and in the QP7 mode (7) they
//! are records of 12 or 56 bytes in segments.

use super::container::{
    audio_start, block_count, format_type, frame_total, is_ds2, lemma_audio_start_bound,
    lemma_frame_total_bound, payload,
};
use super::container::{
    collect_payload, count_blocks, count_frames, detect_ds2_audio_start, detect_ds2_format_type,
    starts_as_ds2,
};
use super::qp::{
    frame_pieces, law_qp_segments_sound, qp_segments, qp_segments_view, segment_frames,
    QpSegmentModel,
};
use super::qp::{split_qp_segments, DS2_QP_FRAME_SIZE};
use super::qp7::{
    law_qp7_segments_sound, qp7_segment_frames, qp7_segments, qp7_segments_sound,
    qp7_segments_view, Qp7SegmentModel,
};
use super::qp7::{count_qp7_frames, split_qp7_segments};
use super::sp::{frames_view, law_sp_packet_sizes, sp_fits, sp_offset, split_sp_packets, SpFeed};
use super::sp_laws::{
    law_sp_lenient_stream_gives_file, law_sp_push_any_pieces, law_sp_strict_stream_gives_file,
    push_all,
};
use super::sp_stream::SpStream;
use crate::error::{DecodeError, ErrorModel};
use crate::pieces::{joined, lemma_joined};
use vstd::prelude::*;
use vstd::slice::{slice_subrange, slice_to_vec};

pub use super::qp::Ds2QpSegment;
pub use super::qp7::Ds2Qp7Segment;
pub use super::sp_stream::Ds2SpStreamDemuxer;

verus! {

/// The frames of a DS2 file.
pub enum DemuxedDs2 {
    /// Packets of the SP mode.
    Sp {
        packets: Vec<Vec<u8>>,
        total_frames: usize,
    },
    /// Segments of the QP mode, with the number of frames that the blocks
    /// announce.
    QpSegments {
        segments: Vec<Ds2QpSegment>,
        total_frames: usize,
    },
    /// Segments of the QP7 mode, with the number of their records.
    Qp7Segments {
        segments: Vec<Ds2Qp7Segment>,
        total_frames: usize,
    },
}

/// The mathematical value of a [`DemuxedDs2`].
pub enum DemuxModel {
    Sp { packets: Seq<Seq<u8>>, total_frames: int },
    QpSegments { segments: Seq<QpSegmentModel>, total_frames: int },
    Qp7Segments { segments: Seq<Qp7SegmentModel>, total_frames: int },
}

impl View for DemuxedDs2 {
    type V = DemuxModel;

    open spec fn view(&self) -> DemuxModel {
        match self {
            DemuxedDs2::Sp { packets, total_frames } => DemuxModel::Sp {
                packets: frames_view(packets@),
                total_frames: *total_frames as int,
            },
            DemuxedDs2::QpSegments { segments, total_frames } => DemuxModel::QpSegments {
                segments: qp_segments_view(segments@),
                total_frames: *total_frames as int,
            },
            DemuxedDs2::Qp7Segments { segments, total_frames } => DemuxModel::Qp7Segments {
                segments: qp7_segments_view(segments@),
                total_frames: *total_frames as int,
            },
        }
    }
}

/// The frames of a file. The blocks begin where the file header ends; the mode
/// is that of the blocks, and the modes from 6 on other than 7 are read like 6.
pub open spec fn demuxed(data: Seq<u8>) -> Result<DemuxModel, ErrorModel> {
    let start = audio_start(data);
    let n = block_count(data, start);
    let total = frame_total(data, start, n);
    if !is_ds2(data) {
        Err(ErrorModel::NotDs2("<bytes>"@))
    } else if format_type(data, start) == 7 {
        match qp7_segments(data, start, n) {
            Ok(segments) => Ok(
                DemuxModel::Qp7Segments { segments, total_frames: qp7_segment_frames(segments) },
            ),
            Err(error) => Err(error),
        }
    } else if format_type(data, start) >= 6 {
        Ok(DemuxModel::QpSegments { segments: qp_segments(data, start, n), total_frames: total })
    } else {
        Ok(
            DemuxModel::Sp {
                packets: (SpFeed {
                    stream: payload(data, start, n),
                    swap: data[start] >= 0x80,
                    lent: 0,
                }).packets(total as nat),
                total_frames: total,
            },
        )
    }
}

/// Whether a file can be demultiplexed or refused. A file of the SP mode needs
/// the first byte behind its header, and its payload must reach to where its
/// last packet begins.
pub open spec fn demux_defined(data: Seq<u8>) -> bool {
    let start = audio_start(data);
    let n = block_count(data, start);
    is_ds2(data) && format_type(data, start) < 6 ==> {
        &&& data.len() > start
        &&& sp_fits(506 * n, data[start] >= 0x80, frame_total(data, start, n) as nat)
    }
}

/// Whether a file can be demultiplexed or refused, see [`demux_defined`].
pub fn can_demux_ds2(data: &[u8]) -> (res: bool)
    ensures
        res == demux_defined(data@),
{
    if !starts_as_ds2(data) {
        return true;
    }
    let header_size = detect_ds2_audio_start(data);
    if detect_ds2_format_type(data, header_size) >= 6 {
        return true;
    }
    if data.len() <= header_size {
        return false;
    }
    let num_blocks = count_blocks(data, header_size);
    let total_frames = count_frames(data, header_size, num_blocks);
    if total_frames == 0 {
        return true;
    }
    proof {
        lemma_frame_total_bound(data@, header_size as int, 0, num_blocks as nat);
    }
    let before: usize = total_frames - 1;
    let len: u128 = 506 * num_blocks as u128;
    let single: u128 = if data[header_size] >= 0x80 {
        40
    } else {
        42
    };
    let offset: u128 = 82 * (before as u128 / 2) + if before % 2 == 1 {
        single
    } else {
        0
    };
    assert(offset == sp_offset(data@[header_size as int] >= 0x80, before as nat)) by {
        let need = super::sp::sp_need(data@[header_size as int] >= 0x80);
        assert(1 * need == need && 0 * need == 0) by (nonlinear_arith);
    }
    offset <= len
}

/// Demultiplexes a DS2 file.
pub fn demux_ds2(data: &[u8]) -> (res: Result<DemuxedDs2, DecodeError>)
    requires
        demux_defined(data@),
    ensures
        match demuxed(data@) {
            Ok(frames) => res is Ok && res->Ok_0@ == frames,
            Err(error) => res is Err && res->Err_0@ == error,
        },
{
    if !starts_as_ds2(data) {
        return Err(DecodeError::NotDs2("<bytes>".to_string()));
    }
    let header_size = detect_ds2_audio_start(data);
    let num_blocks = count_blocks(data, header_size);
    let format_type = detect_ds2_format_type(data, header_size);
    let total_frames = count_frames(data, header_size, num_blocks);
    let raw = collect_payload(data, header_size, num_blocks);
    if format_type == 7 {
        match split_qp7_segments(data, header_size, num_blocks, raw.as_slice()) {
            Err(error) => Err(error),
            Ok(segments) => {
                proof {
                    law_qp7_segments_sound(data@, header_size as int, num_blocks as nat);
                }
                let total_frames = count_qp7_frames(segments.as_slice());
                Ok(DemuxedDs2::Qp7Segments { segments, total_frames })
            },
        }
    } else if format_type >= 6 {
        let segments = split_qp_segments(data, header_size, num_blocks, raw.as_slice());
        Ok(DemuxedDs2::QpSegments { segments, total_frames })
    } else {
        let swap = data[header_size] >= 0x80;
        let packets = split_sp_packets(raw.as_slice(), swap, total_frames);
        Ok(DemuxedDs2::Sp { packets, total_frames })
    }
}

/// The frames of a list of segments of the QP mode, one segment behind the
/// other.
pub open spec fn segment_pieces(segments: Seq<QpSegmentModel>) -> Seq<Seq<u8>>
    decreases segments.len(),
{
    if segments.len() == 0 {
        Seq::empty()
    } else {
        segment_pieces(segments.drop_last()) + frame_pieces(
            segments.last().stream,
            segments.last().total_frames as nat,
        )
    }
}

/// The records of a list of segments of the QP7 mode, one segment behind the
/// other.
pub open spec fn segment_records(segments: Seq<Qp7SegmentModel>) -> Seq<Seq<u8>>
    decreases segments.len(),
{
    if segments.len() == 0 {
        Seq::empty()
    } else {
        segment_records(segments.drop_last()) + segments.last().records
    }
}

/// The frames of a file of the QP or QP7 mode as a plain list. A file of the SP
/// mode has none.
pub open spec fn qp_stream_frames(data: Seq<u8>) -> Result<Seq<Seq<u8>>, ErrorModel> {
    match demuxed(data) {
        Err(error) => Err(error),
        Ok(DemuxModel::QpSegments { segments, total_frames: _ }) => Ok(segment_pieces(segments)),
        Ok(DemuxModel::Qp7Segments { segments, total_frames: _ }) => Ok(segment_records(segments)),
        Ok(DemuxModel::Sp { packets: _, total_frames: _ }) => Ok(Seq::empty()),
    }
}

/// Appends the frames of one segment of the QP mode.
fn push_pieces(frames: &mut Vec<Vec<u8>>, stream: &[u8], n: usize)
    ensures
        frames_view(final(frames)@) == frames_view(old(frames)@) + frame_pieces(
            stream@,
            n as nat,
        ),
{
    let ghost goal = frames_view(frames@) + frame_pieces(stream@, n as nat);
    let mut pos: usize = 0;
    let mut i: usize = 0;
    assert(stream@.skip(0) =~= stream@);
    while i < n && pos < stream.len()
        invariant
            i <= n,
            pos <= stream.len(),
            frames_view(frames@) + frame_pieces(stream@.skip(pos as int), (n - i) as nat) == goal,
        decreases n - i,
    {
        let ghost before = frames_view(frames@);
        let ghost rest = stream@.skip(pos as int);
        let end: usize = if stream.len() - pos < DS2_QP_FRAME_SIZE {
            stream.len()
        } else {
            pos + DS2_QP_FRAME_SIZE
        };
        let piece = slice_to_vec(slice_subrange(stream, pos, end));
        let ghost bytes = piece@;
        frames.push(piece);
        pos = end;
        i += 1;
        proof {
            assert(frames_view(frames@) =~= before.push(bytes));
            if rest.len() <= 56 {
                assert(bytes =~= rest);
                assert(stream@.skip(pos as int) =~= Seq::empty());
            } else {
                assert(bytes =~= rest.take(56));
                assert(stream@.skip(pos as int) =~= rest.skip(56));
            }
            assert(before + frame_pieces(rest, (n - i + 1) as nat) =~= before.push(bytes)
                + frame_pieces(stream@.skip(pos as int), (n - i) as nat));
        }
    }
    assert(frame_pieces(stream@.skip(pos as int), (n - i) as nat) =~= Seq::empty());
    assert(frames_view(frames@) =~= goal);
}

/// A demultiplexer for a DS2 file of the QP or QP7 mode whose bytes arrive in
/// pieces. The frames come out at the end.
pub struct Ds2QpStreamDemuxer {
    data: Vec<u8>,
}

impl View for Ds2QpStreamDemuxer {
    type V = Seq<u8>;

    /// The bytes that have arrived.
    closed spec fn view(&self) -> Seq<u8> {
        self.data@
    }
}

impl Ds2QpStreamDemuxer {
    /// A demultiplexer that has seen no bytes.
    pub fn new() -> (demuxer: Self)
        ensures
            demuxer@ == Seq::<u8>::empty(),
    {
        Ds2QpStreamDemuxer { data: Vec::new() }
    }

    /// Takes more bytes of the file. No frames come out before the end.
    pub fn push(&mut self, data: &[u8]) -> (res: Result<Vec<Vec<u8>>, DecodeError>)
        ensures
            res is Ok,
            res->Ok_0@.len() == 0,
            final(self)@ == old(self)@ + data@,
    {
        self.data.extend_from_slice(data);
        assert(self.data@ =~= old(self)@ + data@);
        Ok(Vec::new())
    }

    /// Hands out the frames of the file.
    pub fn finish(&mut self) -> (res: Result<Vec<Vec<u8>>, DecodeError>)
        requires
            demux_defined(old(self)@),
        ensures
            final(self)@ == old(self)@,
            match qp_stream_frames(old(self)@) {
                Ok(frames) => res is Ok && frames_view(res->Ok_0@) == frames,
                Err(error) => res is Err && res->Err_0@ == error,
            },
    {
        self.finish_lenient()
    }

    /// Hands out the frames of the file.
    pub fn finish_lenient(&mut self) -> (res: Result<Vec<Vec<u8>>, DecodeError>)
        requires
            demux_defined(old(self)@),
        ensures
            final(self)@ == old(self)@,
            match qp_stream_frames(old(self)@) {
                Ok(frames) => res is Ok && frames_view(res->Ok_0@) == frames,
                Err(error) => res is Err && res->Err_0@ == error,
            },
    {
        let mut frames: Vec<Vec<u8>> = Vec::new();
        assert(frames_view(frames@) =~= Seq::empty());
        match demux_ds2(self.data.as_slice()) {
            Err(error) => Err(error),
            Ok(DemuxedDs2::QpSegments { segments, total_frames: _ }) => {
                let ghost all = qp_segments_view(segments@);
                let mut i: usize = 0;
                assert(all.take(0) =~= Seq::empty());
                while i < segments.len()
                    invariant
                        all == qp_segments_view(segments@),
                        i <= segments@.len(),
                        frames_view(frames@) == segment_pieces(all.take(i as int)),
                    decreases segments@.len() - i,
                {
                    push_pieces(
                        &mut frames,
                        segments[i].stream.as_slice(),
                        segments[i].total_frames,
                    );
                    proof {
                        assert(all.take(i + 1).drop_last() =~= all.take(i as int));
                        assert(all.take(i + 1).last() == segments@[i as int]@);
                    }
                    i += 1;
                }
                assert(all.take(i as int) =~= all);
                Ok(frames)
            },
            Ok(DemuxedDs2::Qp7Segments { segments, total_frames: _ }) => {
                let ghost all = qp7_segments_view(segments@);
                let mut i: usize = 0;
                assert(all.take(0) =~= Seq::empty());
                while i < segments.len()
                    invariant
                        all == qp7_segments_view(segments@),
                        i <= segments@.len(),
                        frames_view(frames@) == segment_records(all.take(i as int)),
                    decreases segments@.len() - i,
                {
                    push_records(&mut frames, &segments[i].records);
                    proof {
                        assert(all.take(i + 1).drop_last() =~= all.take(i as int));
                        assert(all.take(i + 1).last() == segments@[i as int]@);
                    }
                    i += 1;
                }
                assert(all.take(i as int) =~= all);
                Ok(frames)
            },
            Ok(DemuxedDs2::Sp { packets: _, total_frames: _ }) => Ok(frames),
        }
    }
}

/// Appends copies of records.
fn push_records(frames: &mut Vec<Vec<u8>>, records: &Vec<Vec<u8>>)
    ensures
        frames_view(final(frames)@) == frames_view(old(frames)@) + frames_view(records@),
{
    let ghost first = frames_view(frames@);
    let ghost all = frames_view(records@);
    let mut i: usize = 0;
    assert(first + all.take(0) =~= first);
    while i < records.len()
        invariant
            all == frames_view(records@),
            i <= records@.len(),
            frames_view(frames@) == first + all.take(i as int),
        decreases records@.len() - i,
    {
        let ghost before = frames_view(frames@);
        let record = slice_to_vec(records[i].as_slice());
        let ghost bytes = record@;
        frames.push(record);
        i += 1;
        assert(frames_view(frames@) =~= before.push(bytes));
        assert(before.push(bytes) =~= first + all.take(i as int));
    }
    assert(all.take(i as int) =~= all);
}

/// A file of the SP mode whose blocks begin at 0x600 has the same packets
/// whether it is demultiplexed at once or pushed into a stream in any pieces:
/// always when the stream is ended leniently, and when it is ended strictly
/// wherever that succeeds.
pub proof fn law_sp_stream_matches_batch(pieces: Seq<Seq<u8>>)
    requires
        is_ds2(joined(pieces)),
        audio_start(joined(pieces)) == 0x600,
        format_type(joined(pieces), 0x600) < 6,
        joined(pieces).len() > 0x600,
    ensures
        ({
            let (s, pushed) = push_all(SpStream::start(), pieces);
            let batch = demuxed(joined(pieces));
            &&& batch is Ok
            &&& batch->Ok_0 is Sp
            &&& s.finish_lenient() is Ok
            &&& pushed + s.finish_lenient()->Ok_0.1 == batch->Ok_0->packets
            &&& s.finish() matches Ok(last) ==> pushed + last == batch->Ok_0->packets
        }),
{
    law_sp_push_any_pieces(pieces);
    law_sp_lenient_stream_gives_file(joined(pieces));
    if SpStream::start().push(joined(pieces)).0.finish() is Ok {
        law_sp_strict_stream_gives_file(joined(pieces));
    }
}

/// The bytes of the segments one behind the other.
pub open spec fn segment_bytes(segments: Seq<QpSegmentModel>) -> Seq<u8>
    decreases segments.len(),
{
    if segments.len() == 0 {
        Seq::empty()
    } else {
        segment_bytes(segments.drop_last()) + segments.last().stream
    }
}

/// Whether all frames of all segments are there.
pub open spec fn segments_complete(segments: Seq<QpSegmentModel>) -> bool {
    forall|i: int|
        0 <= i < segments.len() ==> {
            let segment = #[trigger] segments[i];
            segment.total_frames >= 0 && segment.stream.len() == 56 * segment.total_frames
        }
}

/// Whole frames have 56 bytes each and are the bytes that they were cut from.
proof fn lemma_whole_pieces(stream: Seq<u8>, n: nat)
    requires
        stream.len() == 56 * n,
    ensures
        frame_pieces(stream, n).len() == n,
        forall|i: int| 0 <= i < n ==> (#[trigger] frame_pieces(stream, n)[i]).len() == 56,
        joined(frame_pieces(stream, n)) == stream,
    decreases n,
{
    if n == 0 {
        assert(stream =~= Seq::empty());
    } else if n == 1 {
        let one = seq![stream];
        assert(one.drop_last() =~= Seq::<Seq<u8>>::empty());
        assert(joined(one.drop_last()) =~= Seq::<u8>::empty());
        assert(joined(one) =~= stream);
    } else {
        let rest = frame_pieces(stream.skip(56), (n - 1) as nat);
        lemma_whole_pieces(stream.skip(56), (n - 1) as nat);
        assert forall|i: int| 0 <= i < n implies (#[trigger] frame_pieces(stream, n)[i]).len()
            == 56 by {
            if i > 0 {
                assert(frame_pieces(stream, n)[i] == rest[i - 1]);
            }
        }
        let one = seq![stream.take(56)];
        assert(one.drop_last() =~= Seq::<Seq<u8>>::empty());
        assert(joined(one.drop_last()) =~= Seq::<u8>::empty());
        assert(joined(one) =~= stream.take(56));
        lemma_joined(one, rest);
        assert(stream.take(56) + stream.skip(56) =~= stream);
    }
}

/// Where the segments of a file are complete, its frames are as many as the
/// segments announce, have 56 bytes each, and are together the bytes of the
/// segments.
pub proof fn law_qp_frames_are_the_stream(segments: Seq<QpSegmentModel>)
    requires
        segments_complete(segments),
    ensures
        segment_pieces(segments).len() == segment_frames(segments),
        forall|i: int|
            0 <= i < segment_pieces(segments).len() ==> (#[trigger] segment_pieces(
                segments,
            )[i]).len() == 56,
        joined(segment_pieces(segments)) == segment_bytes(segments),
    decreases segments.len(),
{
    if segments.len() > 0 {
        let fewer = segments.drop_last();
        let last = segments.last();
        assert(last == segments[segments.len() - 1]);
        assert(segments_complete(fewer)) by {
            assert forall|i: int| 0 <= i < fewer.len() implies {
                let segment = #[trigger] fewer[i];
                segment.total_frames >= 0 && segment.stream.len() == 56 * segment.total_frames
            } by {
                assert(fewer[i] == segments[i]);
            }
        }
        law_qp_frames_are_the_stream(fewer);
        lemma_whole_pieces(last.stream, last.total_frames as nat);
        let a = segment_pieces(fewer);
        let b = frame_pieces(last.stream, last.total_frames as nat);
        lemma_joined(a, b);
        assert forall|i: int| 0 <= i < (a + b).len() implies (#[trigger] (a + b)[i]).len()
            == 56 by {
            if i < a.len() {
                assert((a + b)[i] == a[i]);
            } else {
                assert((a + b)[i] == b[i - a.len()]);
            }
        }
    }
}

/// The frame counts of a file: there are as many packets of the SP mode and as
/// many records of the QP7 mode as the blocks announce, and the segments of the
/// QP mode announce together as many frames as the blocks.
pub proof fn law_demuxed_frame_counts(data: Seq<u8>)
    ensures
        ({
            let start = audio_start(data);
            let announced = frame_total(data, start, block_count(data, start));
            match demuxed(data) {
                Ok(DemuxModel::Sp { packets, total_frames }) => {
                    &&& total_frames == announced
                    &&& packets.len() == announced
                },
                Ok(DemuxModel::QpSegments { segments, total_frames }) => {
                    &&& total_frames == announced
                    &&& segment_frames(segments) == announced
                },
                Ok(DemuxModel::Qp7Segments { segments, total_frames }) => {
                    &&& total_frames == announced
                    &&& segment_records(segments).len() == announced
                },
                Err(_) => true,
            }
        }),
{
    let start = audio_start(data);
    let n = block_count(data, start);
    let feed = SpFeed {
        stream: payload(data, start, n),
        swap: data[start] >= 0x80,
        lent: 0,
    };
    lemma_audio_start_bound(data);
    lemma_frame_total_bound(data, start, 0, n);
    law_sp_packet_sizes(feed, frame_total(data, start, n) as nat);
    law_qp_segments_sound(data, start, n);
    law_qp7_segments_sound(data, start, n);
    if let Ok(segments) = qp7_segments(data, start, n) {
        lemma_record_count(segments);
    }
}

/// The records of segments that count their records.
proof fn lemma_record_count(segments: Seq<Qp7SegmentModel>)
    requires
        qp7_segments_sound(segments),
    ensures
        segment_records(segments).len() == qp7_segment_frames(segments),
    decreases segments.len(),
{
    if segments.len() > 0 {
        assert(segments.last() == segments[segments.len() - 1]);
        assert(qp7_segments_sound(segments.drop_last())) by {
            let fewer = segments.drop_last();
            assert(forall|i: int| 0 <= i < fewer.len() ==> #[trigger] fewer[i] == segments[i]);
        }
        lemma_record_count(segments.drop_last());
    }
}

} // verus!
