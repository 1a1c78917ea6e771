//! Decoding a file while its bytes arrive.
//!
//! The decoder here decides; turning frames into samples is the business of the
//! codecs, and DSS files are demultiplexed outside this crate. Every call says
//! in a [`DecodeStep`] what is to be done next.

use crate::demux::container::{is_ds2, starts_as_ds2};
use crate::demux::ds2::{can_demux_ds2, demux_ds2, DemuxedDs2};
use crate::demux::ds2::{demux_defined, demuxed, DemuxModel};
use crate::demux::format::{detect_format, starts_as_dss, AudioFormat};
use crate::demux::format::{detected, is_dss};
use crate::demux::qp::{qp_segments_view, Ds2QpSegment, QpSegmentModel};
use crate::demux::qp7::{qp7_segments_view, Ds2Qp7Segment, Qp7SegmentModel};
use crate::demux::sp::frames_view;
use crate::demux::sp_stream::{Ds2SpStreamDemuxer, SpStream};
use crate::error::{DecodeError, ErrorModel};
use vstd::prelude::*;
use vstd::slice::slice_to_vec;

verus! {

/// What is to be done with bytes or frames.
#[derive(Debug, Clone, PartialEq, Eq)]
pub enum DecodeStep {
    /// Nothing: no samples come out.
    Idle,
    /// The DSS demultiplexer for this version is to be given the bytes, and
    /// the frames that come out go to [`StreamingDecoder::decode_frames`].
    DssBytes {
        version: u8,
        bytes: Vec<u8>,
    },
    /// The Grundig demultiplexer for this many header blocks is to be given
    /// the bytes, and the frames that come out go to
    /// [`StreamingDecoder::decode_frames`].
    GrundigBytes {
        header_blocks: u8,
        bytes: Vec<u8>,
    },
    /// The DSS demultiplexer is to be finished, leniently or not, and the
    /// outcome goes to [`StreamingDecoder::ended`].
    DssEnd {
        lenient: bool,
    },
    /// The Grundig demultiplexer is to be finished, leniently or not, and the
    /// outcome goes to [`StreamingDecoder::ended`].
    GrundigEnd {
        lenient: bool,
    },
    /// The frames are to be decoded by the DSS SP codec.
    DssFrames(Vec<Vec<u8>>),
    /// The frames are to be decoded by the DS2 SP codec.
    Ds2SpFrames(Vec<Vec<u8>>),
    /// The frames are to be decoded by the DS2 QP codec.
    QpFrames(Vec<Vec<u8>>),
    /// The frames are a whole utterance: they are to be decoded by the Grundig
    /// SP codec, which is then to be finished.
    GrundigFrames(Vec<Vec<u8>>),
    /// The segments are to be decoded by the DS2 QP codec.
    QpSegments(Vec<Ds2QpSegment>),
    /// The segments of records are to be decoded by the DS2 QP codec.
    Qp7Segments(Vec<Ds2Qp7Segment>),
}

/// The mathematical value of a [`DecodeStep`].
pub enum StepModel {
    Idle,
    DssBytes { version: u8, bytes: Seq<u8> },
    GrundigBytes { header_blocks: u8, bytes: Seq<u8> },
    DssEnd { lenient: bool },
    GrundigEnd { lenient: bool },
    DssFrames(Seq<Seq<u8>>),
    Ds2SpFrames(Seq<Seq<u8>>),
    QpFrames(Seq<Seq<u8>>),
    GrundigFrames(Seq<Seq<u8>>),
    QpSegments(Seq<QpSegmentModel>),
    Qp7Segments(Seq<Qp7SegmentModel>),
}

impl View for DecodeStep {
    type V = StepModel;

    open spec fn view(&self) -> StepModel {
        match self {
            DecodeStep::Idle => StepModel::Idle,
            DecodeStep::DssBytes { version, bytes } => StepModel::DssBytes {
                version: *version,
                bytes: bytes@,
            },
            DecodeStep::GrundigBytes { header_blocks, bytes } => StepModel::GrundigBytes {
                header_blocks: *header_blocks,
                bytes: bytes@,
            },
            DecodeStep::DssEnd { lenient } => StepModel::DssEnd { lenient: *lenient },
            DecodeStep::GrundigEnd { lenient } => StepModel::GrundigEnd { lenient: *lenient },
            DecodeStep::DssFrames(frames) => StepModel::DssFrames(frames_view(frames@)),
            DecodeStep::Ds2SpFrames(frames) => StepModel::Ds2SpFrames(frames_view(frames@)),
            DecodeStep::QpFrames(frames) => StepModel::QpFrames(frames_view(frames@)),
            DecodeStep::GrundigFrames(frames) => StepModel::GrundigFrames(frames_view(frames@)),
            DecodeStep::QpSegments(segments) => StepModel::QpSegments(qp_segments_view(segments@)),
            DecodeStep::Qp7Segments(segments) => StepModel::Qp7Segments(
                qp7_segments_view(segments@),
            ),
        }
    }
}

impl StepModel {
    /// Whether no samples come of the step, and nothing else either.
    pub open spec fn is_nothing(self) -> bool {
        match self {
            StepModel::Idle => true,
            StepModel::DssFrames(frames) => frames.len() == 0,
            StepModel::Ds2SpFrames(frames) => frames.len() == 0,
            StepModel::QpFrames(frames) => frames.len() == 0,
            StepModel::GrundigFrames(frames) => frames.len() == 0,
            StepModel::QpSegments(segments) => segments.len() == 0,
            StepModel::Qp7Segments(segments) => segments.len() == 0,
            _ => false,
        }
    }

    /// Whether the step is work for a demultiplexer outside, which may fail.
    pub open spec fn is_outside(self) -> bool {
        self is DssBytes || self is GrundigBytes || self is DssEnd || self is GrundigEnd
    }
}

impl DecodeStep {
    /// Whether no samples come of the step, and nothing else either.
    pub fn is_empty(&self) -> (res: bool)
        ensures
            res == self@.is_nothing(),
    {
        match self {
            DecodeStep::Idle => true,
            DecodeStep::DssFrames(frames) => frames.is_empty(),
            DecodeStep::Ds2SpFrames(frames) => frames.is_empty(),
            DecodeStep::QpFrames(frames) => frames.is_empty(),
            DecodeStep::GrundigFrames(frames) => frames.is_empty(),
            DecodeStep::QpSegments(segments) => segments.is_empty(),
            DecodeStep::Qp7Segments(segments) => segments.is_empty(),
            _ => false,
        }
    }

    /// Whether the step is work for a demultiplexer outside, which may fail.
    pub fn is_outside(&self) -> (res: bool)
        ensures
            res == self@.is_outside(),
    {
        match self {
            DecodeStep::DssBytes { .. } => true,
            DecodeStep::GrundigBytes { .. } => true,
            DecodeStep::DssEnd { .. } => true,
            DecodeStep::GrundigEnd { .. } => true,
            _ => false,
        }
    }
}

/// Who takes the bytes of a file, once its format is known.
pub enum Source {
    /// The format is not known.
    Unset,
    /// The DSS demultiplexer for this version.
    Dss(u8),
    /// The demultiplexer for the SP mode, in this state.
    Ds2Sp(SpStream),
    /// A buffer that is demultiplexed at the end.
    Ds2Qp,
    /// The Grundig demultiplexer for this many header blocks.
    Grundig(u8),
}

/// The state of a [`StreamingDecoder`].
pub struct DecoderState {
    /// The bytes that have arrived while the format was not known.
    pub prebuffer: Seq<u8>,
    /// The bytes of a file of the QP or QP7 mode.
    pub raw: Seq<u8>,
    /// The format, once it is known.
    pub format: Option<AudioFormat>,
    /// Who takes the bytes.
    pub source: Source,
    /// Whether the end has been decoded.
    pub finished: bool,
}

impl DecoderState {
    /// The state before the first byte.
    pub open spec fn start() -> DecoderState {
        DecoderState {
            prebuffer: Seq::empty(),
            raw: Seq::empty(),
            format: None,
            source: Source::Unset,
            finished: false,
        }
    }

    /// Whether the parts of the state belong together: the bytes go to where
    /// the format says, and while it is not known the bytes do not tell it.
    pub open spec fn valid(self) -> bool {
        match self.format {
            None => self.source is Unset && detected(self.prebuffer) is None,
            Some(AudioFormat::DssSp) => self.source is Dss,
            Some(AudioFormat::Ds2Sp) => self.source is Ds2Sp,
            Some(AudioFormat::Ds2Qp) => self.source is Ds2Qp,
            Some(AudioFormat::Ds2Qp7) => self.source is Ds2Qp,
            Some(AudioFormat::GrundigSp) => self.source is Grundig,
        }
    }

    /// Whether `n` more bytes can be counted.
    pub open spec fn has_room(self, n: nat) -> bool {
        self.source matches Source::Ds2Sp(stream) ==> stream.has_room(n)
    }

    /// Whether ending is defined: the bytes of the QP or QP7 mode can be
    /// demultiplexed or refused.
    pub open spec fn can_end(self) -> bool {
        !self.finished && self.source is Ds2Qp ==> demux_defined(self.raw)
    }

    /// The state in which the format is known. The first byte of a DSS file is
    /// its version, and the number of header blocks of a Grundig file.
    pub open spec fn with_format(self, format: AudioFormat) -> DecoderState {
        DecoderState {
            format: Some(format),
            source: match format {
                AudioFormat::DssSp => Source::Dss(self.prebuffer[0]),
                AudioFormat::Ds2Sp => Source::Ds2Sp(SpStream::start()),
                AudioFormat::Ds2Qp => Source::Ds2Qp,
                AudioFormat::Ds2Qp7 => Source::Ds2Qp,
                AudioFormat::GrundigSp => Source::Grundig(self.prebuffer[0]),
            },
            ..self
        }
    }

    /// More bytes of a file of known format arrive.
    pub open spec fn push_active(self, bytes: Seq<u8>) -> (DecoderState, StepModel) {
        match self.source {
            Source::Unset => (self, StepModel::Idle),
            Source::Dss(version) => (self, StepModel::DssBytes { version, bytes }),
            Source::Ds2Sp(stream) => (
                DecoderState { source: Source::Ds2Sp(stream.push(bytes).0), ..self },
                StepModel::Ds2SpFrames(stream.push(bytes).1),
            ),
            Source::Ds2Qp => (DecoderState { raw: self.raw + bytes, ..self }, StepModel::Idle),
            Source::Grundig(header_blocks) => (
                self,
                StepModel::GrundigBytes { header_blocks, bytes },
            ),
        }
    }

    /// More bytes arrive. While the format is not known they are kept; when it
    /// becomes known, all of them are handed on at once.
    pub open spec fn push(self, bytes: Seq<u8>) -> (DecoderState, Result<StepModel, ErrorModel>) {
        let seen = self.prebuffer + bytes;
        let kept = DecoderState { prebuffer: seen, ..self };
        if self.finished {
            (self, Err(ErrorModel::AlreadyFinished))
        } else if self.format is Some {
            let (end, step) = self.push_active(bytes);
            (end, Ok(step))
        } else if let Some(format) = detected(seen) {
            let known = DecoderState { prebuffer: Seq::empty(), ..kept.with_format(format) };
            let (end, step) = known.push_active(seen);
            (end, Ok(step))
        } else if seen.len() >= 4 && !is_dss(seen) && !is_ds2(seen) {
            (kept, Err(ErrorModel::UnsupportedFormat(seen[0])))
        } else {
            (kept, Ok(StepModel::Idle))
        }
    }

    /// The same state, finished.
    pub open spec fn done(self) -> DecoderState {
        DecoderState { finished: true, ..self }
    }

    /// The end of a file of known format.
    pub open spec fn finish_active(self, lenient: bool) -> (
        DecoderState,
        Result<StepModel, ErrorModel>,
    ) {
        match self.source {
            Source::Unset => (self.done(), Ok(StepModel::Idle)),
            Source::Dss(_) => (self, Ok(StepModel::DssEnd { lenient })),
            Source::Grundig(_) => (self, Ok(StepModel::GrundigEnd { lenient })),
            Source::Ds2Sp(stream) => if lenient {
                match stream.finish_lenient() {
                    Ok((end, packets)) => (
                        DecoderState { source: Source::Ds2Sp(end), ..self }.done(),
                        Ok(StepModel::Ds2SpFrames(packets)),
                    ),
                    Err(error) => (self, Err(error)),
                }
            } else {
                match stream.finish() {
                    Ok(packets) => (self.done(), Ok(StepModel::Ds2SpFrames(packets))),
                    Err(error) => (self, Err(error)),
                }
            },
            Source::Ds2Qp => match demuxed(self.raw) {
                Ok(DemuxModel::QpSegments { segments, total_frames: _ }) => (
                    self.done(),
                    Ok(StepModel::QpSegments(segments)),
                ),
                Ok(DemuxModel::Qp7Segments { segments, total_frames: _ }) => (
                    self.done(),
                    Ok(StepModel::Qp7Segments(segments)),
                ),
                Ok(DemuxModel::Sp { packets: _, total_frames: _ }) => (
                    self.done(),
                    Ok(StepModel::Idle),
                ),
                Err(error) => (self, Err(error)),
            },
        }
    }

    /// The bytes end here. A file whose format is not known by now is refused,
    /// unless it is empty.
    pub open spec fn finish(self, lenient: bool) -> (
        DecoderState,
        Result<StepModel, ErrorModel>,
    ) {
        if self.finished {
            (self, Ok(StepModel::Idle))
        } else if self.format is Some {
            self.finish_active(lenient)
        } else if self.prebuffer.len() == 0 {
            (self.done(), Ok(StepModel::Idle))
        } else if is_ds2(self.prebuffer) {
            (self, Err(ErrorModel::Truncated("DS2 header"@)))
        } else {
            (self, Err(ErrorModel::UnsupportedFormat(self.prebuffer[0])))
        }
    }

    /// What is to be done with frames of a file of this format. The Grundig
    /// codec is left alone until there are frames.
    pub open spec fn frames_step(self, frames: Seq<Seq<u8>>) -> StepModel {
        match self.source {
            Source::Unset => StepModel::Idle,
            Source::Dss(_) => StepModel::DssFrames(frames),
            Source::Ds2Sp(_) => StepModel::Ds2SpFrames(frames),
            Source::Ds2Qp => StepModel::QpFrames(frames),
            Source::Grundig(_) => if frames.len() == 0 {
                StepModel::Idle
            } else {
                StepModel::GrundigFrames(frames)
            },
        }
    }
}

/// The demultiplexer in use.
enum ActiveDemuxer {
    Unset,
    Dss(u8),
    Ds2Sp(Ds2SpStreamDemuxer),
    Ds2Qp,
    Grundig(u8),
}

impl View for ActiveDemuxer {
    type V = Source;

    closed spec fn view(&self) -> Source {
        match self {
            ActiveDemuxer::Unset => Source::Unset,
            ActiveDemuxer::Dss(version) => Source::Dss(*version),
            ActiveDemuxer::Ds2Sp(demuxer) => Source::Ds2Sp(demuxer@),
            ActiveDemuxer::Ds2Qp => Source::Ds2Qp,
            ActiveDemuxer::Grundig(header_blocks) => Source::Grundig(*header_blocks),
        }
    }
}

/// Takes the bytes of a file as they arrive, finds out its format and says what
/// is to be decoded.
pub struct StreamingDecoder {
    prebuffer: Vec<u8>,
    raw_buf: Vec<u8>,
    format: Option<AudioFormat>,
    demuxer: ActiveDemuxer,
    finished: bool,
}

impl View for StreamingDecoder {
    type V = DecoderState;

    closed spec fn view(&self) -> DecoderState {
        DecoderState {
            prebuffer: self.prebuffer@,
            raw: self.raw_buf@,
            format: self.format,
            source: self.demuxer@,
            finished: self.finished,
        }
    }
}

impl Default for StreamingDecoder {
    fn default() -> (decoder: Self)
        ensures
            decoder@ == DecoderState::start(),
    {
        StreamingDecoder::new()
    }
}

impl StreamingDecoder {
    /// A decoder that has seen no bytes.
    pub fn new() -> (decoder: Self)
        ensures
            decoder@ == DecoderState::start(),
            decoder@.valid(),
    {
        StreamingDecoder {
            prebuffer: Vec::new(),
            raw_buf: Vec::new(),
            format: None,
            demuxer: ActiveDemuxer::Unset,
            finished: false,
        }
    }

    /// Takes more bytes of the file and says what is to be done with them.
    pub fn push(&mut self, bytes: &[u8]) -> (res: Result<DecodeStep, DecodeError>)
        requires
            old(self)@.valid(),
            old(self)@.has_room(bytes@.len()),
        ensures
            final(self)@.valid(),
            final(self)@ == old(self)@.push(bytes@).0,
            match old(self)@.push(bytes@).1 {
                Ok(step) => res is Ok && res->Ok_0@ == step,
                Err(error) => res is Err && res->Err_0@ == error,
            },
    {
        if self.finished {
            return Err(DecodeError::AlreadyFinished);
        }
        if self.format.is_none() {
            self.prebuffer.extend_from_slice(bytes);
            assert(self.prebuffer@ =~= old(self)@.prebuffer + bytes@);
            match self.try_initialize() {
                Err(error) => {
                    return Err(error);
                },
                Ok(known) => {
                    if !known {
                        return Ok(DecodeStep::Idle);
                    }
                },
            }
            let mut buffered: Vec<u8> = Vec::new();
            std::mem::swap(&mut buffered, &mut self.prebuffer);
            return Ok(self.push_active(buffered.as_slice()));
        }
        Ok(self.push_active(bytes))
    }

    /// Ends the file and says what is left to be done.
    pub fn finish(&mut self) -> (res: Result<DecodeStep, DecodeError>)
        requires
            old(self)@.valid(),
            old(self)@.can_end(),
        ensures
            final(self)@.valid(),
            final(self)@ == old(self)@.finish(false).0,
            match old(self)@.finish(false).1 {
                Ok(step) => res is Ok && res->Ok_0@ == step,
                Err(error) => res is Err && res->Err_0@ == error,
            },
    {
        self.close(false)
    }

    /// Ends the file, tolerating that its last frames are incomplete, and says
    /// what is left to be done.
    pub fn finish_lenient(&mut self) -> (res: Result<DecodeStep, DecodeError>)
        requires
            old(self)@.valid(),
            old(self)@.can_end(),
        ensures
            final(self)@.valid(),
            final(self)@ == old(self)@.finish(true).0,
            match old(self)@.finish(true).1 {
                Ok(step) => res is Ok && res->Ok_0@ == step,
                Err(error) => res is Err && res->Err_0@ == error,
            },
    {
        self.close(true)
    }

    /// Ends the file, leniently or not.
    fn close(&mut self, lenient: bool) -> (res: Result<DecodeStep, DecodeError>)
        requires
            old(self)@.valid(),
            old(self)@.can_end(),
        ensures
            final(self)@.valid(),
            final(self)@ == old(self)@.finish(lenient).0,
            match old(self)@.finish(lenient).1 {
                Ok(step) => res is Ok && res->Ok_0@ == step,
                Err(error) => res is Err && res->Err_0@ == error,
            },
    {
        if self.finished {
            return Ok(DecodeStep::Idle);
        }
        if self.format.is_none() {
            if self.prebuffer.is_empty() {
                self.finished = true;
                return Ok(DecodeStep::Idle);
            }
            if starts_as_ds2(self.prebuffer.as_slice()) {
                return Err(DecodeError::Truncated("DS2 header".to_string()));
            }
            return Err(DecodeError::UnsupportedFormat(self.prebuffer[0]));
        }
        self.finish_active(lenient)
    }

    /// The format of the file, once it is known.
    pub fn format(&self) -> (format: Option<AudioFormat>)
        ensures
            format == self@.format,
    {
        self.format
    }

    /// The rate of the samples in Hertz, once the format is known.
    pub fn native_rate(&self) -> (rate: Option<u32>)
        ensures
            rate == match self@.format {
                Some(format) => Some(format.rate()),
                None => None,
            },
    {
        match self.format {
            Some(format) => Some(format.native_sample_rate()),
            None => None,
        }
    }

    /// Whether `n` more bytes can be counted, see [`DecoderState::has_room`].
    pub fn has_room(&self, n: usize) -> (res: bool)
        ensures
            res == self@.has_room(n as nat),
    {
        match &self.demuxer {
            ActiveDemuxer::Ds2Sp(demuxer) => demuxer.has_room(n),
            _ => true,
        }
    }

    /// Whether ending is defined, see [`DecoderState::can_end`].
    pub fn can_end(&self) -> (res: bool)
        ensures
            res == self@.can_end(),
    {
        match &self.demuxer {
            ActiveDemuxer::Ds2Qp => self.finished || can_demux_ds2(self.raw_buf.as_slice()),
            _ => true,
        }
    }

    /// Whether ending is defined after `bytes` have been pushed, see
    /// [`DecoderState::can_end`].
    pub fn can_end_after(&self, bytes: &[u8]) -> (res: bool)
        ensures
            res == self@.push(bytes@).0.can_end(),
    {
        if self.finished {
            return true;
        }
        if self.format.is_none() {
            let mut seen = slice_to_vec(self.prebuffer.as_slice());
            seen.extend_from_slice(bytes);
            assert(seen@ =~= self@.prebuffer + bytes@);
            return match detect_format(seen.as_slice()) {
                Some(AudioFormat::Ds2Qp) | Some(AudioFormat::Ds2Qp7) => self.can_end_with(
                    seen.as_slice(),
                ),
                Some(_) => true,
                None => self.can_end(),
            };
        }
        match &self.demuxer {
            ActiveDemuxer::Ds2Qp => self.can_end_with(bytes),
            _ => true,
        }
    }

    /// Whether the buffered bytes together with `bytes` can be demultiplexed or
    /// refused.
    fn can_end_with(&self, bytes: &[u8]) -> (res: bool)
        ensures
            res == demux_defined(self@.raw + bytes@),
    {
        let mut raw = slice_to_vec(self.raw_buf.as_slice());
        raw.extend_from_slice(bytes);
        assert(raw@ =~= self@.raw + bytes@);
        can_demux_ds2(raw.as_slice())
    }

    /// Whether the bytes are counted: whether they go to the demultiplexer for
    /// the SP mode.
    pub(crate) fn is_counting(&self) -> (res: bool)
        ensures
            res == (self@.source is Ds2Sp),
    {
        match &self.demuxer {
            ActiveDemuxer::Ds2Sp(_) => true,
            _ => false,
        }
    }

    /// Finds out the format from the bytes kept so far, if they tell it.
    fn try_initialize(&mut self) -> (res: Result<bool, DecodeError>)
        requires
            old(self)@.format is None,
            old(self)@.source is Unset,
        ensures
            match detected(old(self)@.prebuffer) {
                Some(format) => {
                    &&& res == Ok::<bool, DecodeError>(true)
                    &&& final(self)@ == old(self)@.with_format(format)
                },
                None => {
                    let seen = old(self)@.prebuffer;
                    &&& final(self)@ == old(self)@
                    &&& if seen.len() >= 4 && !is_dss(seen) && !is_ds2(seen) {
                        res is Err && res->Err_0@ == ErrorModel::UnsupportedFormat(seen[0])
                    } else {
                        res == Ok::<bool, DecodeError>(false)
                    }
                },
            },
    {
        match detect_format(self.prebuffer.as_slice()) {
            Some(format) => {
                self.initialize_for_format(format);
                Ok(true)
            },
            None => {
                if self.prebuffer.len() >= 4 && !starts_as_dss(self.prebuffer.as_slice())
                    && !starts_as_ds2(self.prebuffer.as_slice()) {
                    return Err(DecodeError::UnsupportedFormat(self.prebuffer[0]));
                }
                Ok(false)
            },
        }
    }

    /// Sets the format and the demultiplexer for it.
    fn initialize_for_format(&mut self, format: AudioFormat)
        requires
            old(self)@.prebuffer.len() > 0,
        ensures
            final(self)@ == old(self)@.with_format(format),
    {
        self.format = Some(format);
        match format {
            AudioFormat::DssSp => {
                self.demuxer = ActiveDemuxer::Dss(self.prebuffer[0]);
            },
            AudioFormat::Ds2Sp => {
                self.demuxer = ActiveDemuxer::Ds2Sp(Ds2SpStreamDemuxer::new());
            },
            AudioFormat::Ds2Qp | AudioFormat::Ds2Qp7 => {
                self.demuxer = ActiveDemuxer::Ds2Qp;
            },
            AudioFormat::GrundigSp => {
                self.demuxer = ActiveDemuxer::Grundig(self.prebuffer[0]);
            },
        }
    }

    /// Takes more bytes of a file of known format.
    fn push_active(&mut self, bytes: &[u8]) -> (step: DecodeStep)
        requires
            old(self)@.has_room(bytes@.len()),
        ensures
            final(self)@ == old(self)@.push_active(bytes@).0,
            step@ == old(self)@.push_active(bytes@).1,
    {
        match &mut self.demuxer {
            ActiveDemuxer::Unset => DecodeStep::Idle,
            ActiveDemuxer::Dss(version) => DecodeStep::DssBytes {
                version: *version,
                bytes: slice_to_vec(bytes),
            },
            ActiveDemuxer::Grundig(header_blocks) => DecodeStep::GrundigBytes {
                header_blocks: *header_blocks,
                bytes: slice_to_vec(bytes),
            },
            ActiveDemuxer::Ds2Sp(demuxer) => match demuxer.push(bytes) {
                Ok(frames) => DecodeStep::Ds2SpFrames(frames),
                Err(_) => DecodeStep::Idle,
            },
            ActiveDemuxer::Ds2Qp => {
                self.raw_buf.extend_from_slice(bytes);
                assert(self.raw_buf@ =~= old(self)@.raw + bytes@);
                DecodeStep::Idle
            },
        }
    }

    /// Ends a file of known format.
    fn finish_active(&mut self, lenient: bool) -> (res: Result<DecodeStep, DecodeError>)
        requires
            old(self)@.valid(),
            old(self)@.can_end(),
            !old(self)@.finished,
            old(self)@.format is Some,
        ensures
            final(self)@.valid(),
            final(self)@ == old(self)@.finish_active(lenient).0,
            match old(self)@.finish_active(lenient).1 {
                Ok(step) => res is Ok && res->Ok_0@ == step,
                Err(error) => res is Err && res->Err_0@ == error,
            },
    {
        let step: DecodeStep = match &mut self.demuxer {
            ActiveDemuxer::Unset => DecodeStep::Idle,
            ActiveDemuxer::Dss(_) => {
                return Ok(DecodeStep::DssEnd { lenient });
            },
            ActiveDemuxer::Grundig(_) => {
                return Ok(DecodeStep::GrundigEnd { lenient });
            },
            ActiveDemuxer::Ds2Sp(demuxer) => {
                let ended: Result<Vec<Vec<u8>>, DecodeError> = if lenient {
                    demuxer.finish_lenient()
                } else {
                    demuxer.finish()
                };
                match ended {
                    Ok(frames) => DecodeStep::Ds2SpFrames(frames),
                    Err(error) => {
                        return Err(error);
                    },
                }
            },
            ActiveDemuxer::Ds2Qp => match self.demux_buffered_ds2_qp() {
                Ok(step) => step,
                Err(error) => {
                    return Err(error);
                },
            },
        };
        self.finished = true;
        Ok(step)
    }

    /// The segments of the buffered file of the QP or QP7 mode.
    fn demux_buffered_ds2_qp(&self) -> (res: Result<DecodeStep, DecodeError>)
        requires
            demux_defined(self@.raw),
        ensures
            match demuxed(self@.raw) {
                Ok(DemuxModel::QpSegments { segments, total_frames: _ }) => res is Ok
                    && res->Ok_0@ == StepModel::QpSegments(segments),
                Ok(DemuxModel::Qp7Segments { segments, total_frames: _ }) => res is Ok
                    && res->Ok_0@ == StepModel::Qp7Segments(segments),
                Ok(DemuxModel::Sp { packets: _, total_frames: _ }) => res is Ok && res->Ok_0@
                    == StepModel::Idle,
                Err(error) => res is Err && res->Err_0@ == error,
            },
    {
        match demux_ds2(self.raw_buf.as_slice()) {
            Err(error) => Err(error),
            Ok(DemuxedDs2::QpSegments { segments, total_frames: _ }) => Ok(
                DecodeStep::QpSegments(segments),
            ),
            Ok(DemuxedDs2::Qp7Segments { segments, total_frames: _ }) => Ok(
                DecodeStep::Qp7Segments(segments),
            ),
            Ok(DemuxedDs2::Sp { packets: _, total_frames: _ }) => Ok(DecodeStep::Idle),
        }
    }

    /// Says what is to be done with frames that a demultiplexer outside has
    /// handed out.
    pub fn decode_frames(&self, frames: Vec<Vec<u8>>) -> (step: DecodeStep)
        ensures
            step@ == self@.frames_step(frames_view(frames@)),
    {
        match &self.demuxer {
            ActiveDemuxer::Unset => DecodeStep::Idle,
            ActiveDemuxer::Dss(_) => DecodeStep::DssFrames(frames),
            ActiveDemuxer::Ds2Sp(_) => DecodeStep::Ds2SpFrames(frames),
            ActiveDemuxer::Ds2Qp => DecodeStep::QpFrames(frames),
            ActiveDemuxer::Grundig(_) => {
                if frames.is_empty() {
                    DecodeStep::Idle
                } else {
                    DecodeStep::GrundigFrames(frames)
                }
            },
        }
    }

    /// Reports how finishing the demultiplexer outside went. If it succeeded
    /// the file is finished, and the last frames are to be decoded.
    pub fn ended(&mut self, reply: Result<Vec<Vec<u8>>, DecodeError>) -> (res: Result<
        DecodeStep,
        DecodeError,
    >)
        requires
            old(self)@.valid(),
        ensures
            final(self)@.valid(),
            match reply {
                Ok(frames) => {
                    &&& final(self)@ == old(self)@.done()
                    &&& res is Ok
                    &&& res->Ok_0@ == old(self)@.frames_step(frames_view(frames@))
                },
                Err(error) => {
                    &&& final(self)@ == old(self)@
                    &&& res is Err
                    &&& res->Err_0 == error
                },
            },
    {
        match reply {
            Ok(frames) => {
                let step = self.decode_frames(frames);
                self.finished = true;
                Ok(step)
            },
            Err(error) => Err(error),
        }
    }
}

} // verus!
