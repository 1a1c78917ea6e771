//! The audio formats and how a file tells its own.

use super::container::{
    audio_start, block_count, block_frames, format_type, frame_total, is_ds2, mode_from,
};
use super::container::{detect_ds2_audio_start, detect_ds2_format_type, starts_as_ds2};
use vstd::prelude::*;

verus! {

/// The format of a file.
#[derive(Debug, Clone, Copy, PartialEq, Eq, Structural)]
pub enum AudioFormat {
    /// Pure DSS file (.dss), SP codec at 11025 Hz output
    DssSp,
    /// DS2 file (.ds2), SP mode (mode byte 0-1), 12000 Hz
    Ds2Sp,
    /// DS2 file (.ds2), QP mode (mode byte 6), 16000 Hz
    Ds2Qp,
    /// DS2 file (.ds2), QP7 mode (mode byte 7), 16000 Hz
    Ds2Qp7,
    /// Grundig DSS file (first byte 6, magic "dss"), SP codec at 16000 Hz output
    GrundigSp,
}

impl AudioFormat {
    /// The rate, in Hertz, of the samples that the codec puts out.
    pub open spec fn rate(self) -> u32 {
        match self {
            AudioFormat::DssSp => 11025,
            AudioFormat::Ds2Sp => 12000,
            AudioFormat::Ds2Qp => 16000,
            AudioFormat::Ds2Qp7 => 16000,
            AudioFormat::GrundigSp => 16000,
        }
    }

    /// Whether the container is DS2.
    pub open spec fn in_ds2(self) -> bool {
        self is Ds2Sp || self is Ds2Qp || self is Ds2Qp7
    }

    /// The rate, in Hertz, of the samples that the codec puts out.
    pub fn native_sample_rate(&self) -> (rate: u32)
        ensures
            rate == self.rate(),
    {
        match self {
            AudioFormat::DssSp => 11025,
            AudioFormat::Ds2Sp => 12000,
            AudioFormat::Ds2Qp | AudioFormat::Ds2Qp7 => 16000,
            AudioFormat::GrundigSp => 16000,
        }
    }

    /// The usual extension of the file's name.
    pub fn extension(&self) -> (ext: &'static str)
        ensures
            ext@ == if self.in_ds2() {
                "ds2"@
            } else {
                "dss"@
            },
    {
        match self {
            AudioFormat::DssSp => "dss",
            AudioFormat::Ds2Sp | AudioFormat::Ds2Qp | AudioFormat::Ds2Qp7 => "ds2",
            AudioFormat::GrundigSp => "dss",
        }
    }
}

/// The frames of a file together with its format.
pub struct DemuxResult {
    pub format: AudioFormat,
    pub frame_data: FrameData,
    pub total_frames: usize,
}

/// Frames in the form that their format has.
pub enum FrameData {
    /// List of fixed-size packets (DSS SP, DS2 SP)
    Packets(Vec<Vec<u8>>),
    /// Continuous bitstream (DS2 QP)
    Stream(Vec<u8>),
}

/// A version byte and then `dss`.
pub open spec fn has_dss_name(data: Seq<u8>) -> bool {
    data.len() >= 4 && data[1] == 0x64 && data[2] == 0x73 && data[3] == 0x73
}

/// The magic numbers of a DSS file, of which version 6 is Grundig's.
pub open spec fn is_dss(data: Seq<u8>) -> bool {
    has_dss_name(data) && (data[0] == 2 || data[0] == 3 || data[0] == 6)
}

/// Whether the bytes begin with one of the magic numbers of a DSS file.
pub fn starts_as_dss(data: &[u8]) -> (res: bool)
    ensures
        res == is_dss(data@),
{
    data.len() >= 4 && data[1] == 0x64 && data[2] == 0x73 && data[3] == 0x73 && (data[0] == 2
        || data[0] == 3 || data[0] == 6)
}

/// The format of a DS2 file of a given mode.
pub open spec fn ds2_format(mode: u8) -> AudioFormat {
    if mode == 7 {
        AudioFormat::Ds2Qp7
    } else if mode == 6 {
        AudioFormat::Ds2Qp
    } else {
        AudioFormat::Ds2Sp
    }
}

/// The format of a file of which `data` are the first bytes, as soon as they
/// tell. A DS2 file is taken to be of the SP mode until a whole block says
/// otherwise.
pub open spec fn detected(data: Seq<u8>) -> Option<AudioFormat> {
    if is_dss(data) {
        if data[0] == 6 {
            Some(AudioFormat::GrundigSp)
        } else {
            Some(AudioFormat::DssSp)
        }
    } else if is_ds2(data) && data.len() > 0x604 && data.len() > audio_start(data) + 4 {
        Some(ds2_format(format_type(data, audio_start(data))))
    } else {
        None
    }
}

/// Detects the format of a file from its first bytes.
pub fn detect_format(data: &[u8]) -> (format: Option<AudioFormat>)
    ensures
        format == detected(data@),
{
    if data.len() < 4 {
        return None;
    }
    if starts_as_dss(data) {
        if data[0] == 6 {
            return Some(AudioFormat::GrundigSp);
        }
        return Some(AudioFormat::DssSp);
    }
    if starts_as_ds2(data) && data.len() > 0x604 {
        let header_size = detect_ds2_audio_start(data);
        if data.len() <= header_size + 4 {
            return None;
        }
        let format_type = detect_ds2_format_type(data, header_size);
        if format_type == 7 {
            return Some(AudioFormat::Ds2Qp7);
        }
        if format_type == 6 {
            return Some(AudioFormat::Ds2Qp);
        }
        return Some(AudioFormat::Ds2Sp);
    }
    None
}

/// Whether a frame begins in one of the whole blocks of a file whose blocks
/// begin at `header_size`.
pub open spec fn frames_seen(data: Seq<u8>, header_size: int) -> bool {
    frame_total(data, header_size, block_count(data, header_size)) > 0
}

/// The mode of the blocks from `bi` on does not change once one of them has
/// frames.
proof fn lemma_mode_settled(data: Seq<u8>, more: Seq<u8>, header_size: int, bi: nat)
    requires
        header_size >= 0,
        bi <= block_count(data, header_size),
        frame_total(data, header_size, block_count(data, header_size)) > frame_total(
            data,
            header_size,
            bi,
        ),
    ensures
        mode_from(data + more, header_size, bi) == mode_from(data, header_size, bi),
    decreases block_count(data, header_size) - bi,
{
    if bi < block_count(data, header_size) {
        assert(bi < block_count(data + more, header_size));
        assert(block_frames(data + more, header_size, bi as int) == block_frames(
            data,
            header_size,
            bi as int,
        ));
        if block_frames(data, header_size, bi as int) == 0 {
            assert(frame_total(data, header_size, bi + 1) == frame_total(data, header_size, bi));
            lemma_mode_settled(data, more, header_size, bi + 1);
        }
    }
}

/// A format that has been detected stays the same when more bytes of the file
/// arrive: at once for a DSS file, and for a DS2 file of another version than 7
/// as soon as a whole block with frames is there.
pub proof fn law_detection_is_settled(data: Seq<u8>, more: Seq<u8>)
    requires
        detected(data) is Some,
        is_dss(data) || data[0] != 7 && frames_seen(data, 0x600),
    ensures
        detected(data + more) == detected(data),
{
    if !is_dss(data) {
        lemma_mode_settled(data, more, 0x600, 0);
    }
}

} // verus!
