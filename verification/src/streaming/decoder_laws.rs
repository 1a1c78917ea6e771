//! What holds of the streaming decoder as a whole.

use super::decoder::{DecoderState, Source, StepModel};
use crate::demux::container::is_ds2;
use crate::demux::ds2::{demuxed, DemuxModel};
use crate::demux::format::is_dss;
use crate::demux::sp_laws::{
    file_packets, law_sp_lenient_stream_gives_file, law_sp_push_in_pieces,
    law_sp_strict_stream_gives_file,
};
use crate::demux::sp_stream::SpStream;
use crate::error::ErrorModel;
use crate::pieces::joined;
use vstd::prelude::*;

verus! {

/// Once a file has been finished, bytes are refused and ending it again does
/// nothing.
pub proof fn law_finished_is_final(s: DecoderState, bytes: Seq<u8>, lenient: bool)
    requires
        s.finished,
    ensures
        s.push(bytes) == (s, Err::<StepModel, ErrorModel>(ErrorModel::AlreadyFinished)),
        s.finish(lenient) == (s, Ok::<StepModel, ErrorModel>(StepModel::Idle)),
{
}

/// The format does not change once it is known.
pub proof fn law_format_is_kept(s: DecoderState, bytes: Seq<u8>, lenient: bool)
    requires
        s.format is Some,
    ensures
        s.push(bytes).0.format == s.format,
        s.finish(lenient).0.format == s.format,
{
}

/// Every step keeps the parts of the state together.
pub proof fn law_steps_keep_validity(s: DecoderState, bytes: Seq<u8>, lenient: bool)
    requires
        s.valid(),
    ensures
        DecoderState::start().valid(),
        s.push(bytes).0.valid(),
        s.finish(lenient).0.valid(),
{
}

/// What has come out of a decoder.
pub struct Outcome {
    /// The state that it is in.
    pub state: DecoderState,
    /// The packets of the SP mode to be decoded, in order.
    pub packets: Seq<Seq<u8>>,
    /// The bytes for the demultiplexer outside, in order.
    pub outside: Seq<u8>,
}

/// What has come out after one more step.
pub open spec fn with_step(before: Outcome, state: DecoderState, step: StepModel) -> Outcome {
    match step {
        StepModel::Ds2SpFrames(packets) => Outcome {
            state,
            packets: before.packets + packets,
            ..before
        },
        StepModel::DssBytes { version: _, bytes } => Outcome {
            state,
            outside: before.outside + bytes,
            ..before
        },
        StepModel::GrundigBytes { header_blocks: _, bytes } => Outcome {
            state,
            outside: before.outside + bytes,
            ..before
        },
        _ => Outcome { state, ..before },
    }
}

/// What comes out when bytes arrive piece by piece; `None` if one is refused.
pub open spec fn decode_all(pieces: Seq<Seq<u8>>) -> Option<Outcome>
    decreases pieces.len(),
{
    if pieces.len() == 0 {
        Some(
            Outcome {
                state: DecoderState::start(),
                packets: Seq::empty(),
                outside: Seq::empty(),
            },
        )
    } else {
        match decode_all(pieces.drop_last()) {
            None => None,
            Some(before) => match before.state.push(pieces.last()) {
                (_, Err(_)) => None,
                (state, Ok(step)) => Some(with_step(before, state, step)),
            },
        }
    }
}

/// Whether all bytes of a file have gone where its format says.
pub open spec fn accounts_for(outcome: Outcome, file: Seq<u8>) -> bool {
    match outcome.state.source {
        Source::Unset => outcome.state.prebuffer == file,
        Source::Dss(version) => outcome.outside == file && version == file[0],
        Source::Grundig(header_blocks) => outcome.outside == file && header_blocks == file[0],
        Source::Ds2Qp => outcome.state.raw == file,
        Source::Ds2Sp(stream) => {
            &&& file.len() > 0x604
            &&& (stream, outcome.packets) == SpStream::start().push(file)
        },
    }
}

/// No byte is lost and none is handed on twice, in whatever pieces a file
/// arrives: while the format is not known all of them are kept, then all of
/// them go to the same place.
pub proof fn law_every_byte_counts_once(pieces: Seq<Seq<u8>>)
    ensures
        decode_all(pieces) matches Some(outcome) ==> {
            &&& outcome.state.valid()
            &&& !outcome.state.finished
            &&& accounts_for(outcome, joined(pieces))
        },
{
    lemma_accounts(pieces);
}

/// The account of the bytes, with what it needs for one more piece.
spec fn on_account(outcome: Outcome, file: Seq<u8>) -> bool {
    &&& outcome.state.valid()
    &&& !outcome.state.finished
    &&& accounts_for(outcome, file)
    &&& outcome.state.source is Unset ==> {
        &&& outcome.outside == Seq::<u8>::empty()
        &&& outcome.packets == Seq::<Seq<u8>>::empty()
        &&& outcome.state.raw == Seq::<u8>::empty()
    }
    &&& outcome.state.source is Dss || outcome.state.source is Grundig ==> file.len() > 0
}

/// A piece that arrives while the format is not known.
proof fn lemma_first_pieces(before: Outcome, file: Seq<u8>, piece: Seq<u8>)
    requires
        on_account(before, file),
        before.state.source is Unset,
    ensures
        before.state.push(piece).1 matches Ok(step) ==> on_account(
            with_step(before, before.state.push(piece).0, step),
            file + piece,
        ),
{
    let seen = file + piece;
    let packets = SpStream::start().push(seen).1;
    assert(Seq::<u8>::empty() + seen =~= seen);
    assert(Seq::<Seq<u8>>::empty() + packets =~= packets);
}

/// A piece that arrives when the format is known.
proof fn lemma_later_pieces(before: Outcome, file: Seq<u8>, piece: Seq<u8>)
    requires
        on_account(before, file),
        !(before.state.source is Unset),
    ensures
        before.state.push(piece).1 matches Ok(step) ==> on_account(
            with_step(before, before.state.push(piece).0, step),
            file + piece,
        ),
{
    if before.state.source is Ds2Sp {
        law_sp_push_in_pieces(SpStream::start(), file, piece);
    }
}

/// The account holds after every piece.
proof fn lemma_accounts(pieces: Seq<Seq<u8>>)
    ensures
        decode_all(pieces) matches Some(outcome) ==> on_account(outcome, joined(pieces)),
    decreases pieces.len(),
{
    if pieces.len() > 0 {
        lemma_accounts(pieces.drop_last());
        if let Some(before) = decode_all(pieces.drop_last()) {
            let file = joined(pieces.drop_last());
            if before.state.source is Unset {
                lemma_first_pieces(before, file, pieces.last());
            } else {
                lemma_later_pieces(before, file, pieces.last());
            }
        }
    }
}

/// Whether the bytes may be the beginning of a DS2 or DSS file.
pub open spec fn known_so_far(bytes: Seq<u8>) -> bool {
    bytes.len() < 4 || is_ds2(bytes) || is_dss(bytes)
}

/// No piece of a DS2 or DSS file is refused.
pub proof fn law_known_file_is_accepted(pieces: Seq<Seq<u8>>)
    requires
        known_so_far(joined(pieces)),
    ensures
        decode_all(pieces) is Some,
    decreases pieces.len(),
{
    if pieces.len() > 0 {
        law_known_file_is_accepted(pieces.drop_last());
        lemma_accounts(pieces.drop_last());
    }
}

/// A file of the SP mode gives the packets that its blocks hold, in whatever
/// pieces it arrives: together with those of a lenient end always, and together
/// with those of a strict end wherever that succeeds.
pub proof fn law_sp_decoder_gives_file(pieces: Seq<Seq<u8>>)
    requires
        decode_all(pieces) is Some,
        decode_all(pieces)->Some_0.state.source is Ds2Sp,
    ensures
        ({
            let outcome = decode_all(pieces)->Some_0;
            &&& outcome.state.finish(true).1 matches Ok(StepModel::Ds2SpFrames(last))
                && outcome.packets + last == file_packets(joined(pieces))
            &&& outcome.state.finish(false).1 matches Ok(StepModel::Ds2SpFrames(last))
                ==> outcome.packets + last == file_packets(joined(pieces))
        }),
{
    law_every_byte_counts_once(pieces);
    law_sp_lenient_stream_gives_file(joined(pieces));
    if SpStream::start().push(joined(pieces)).0.finish() is Ok {
        law_sp_strict_stream_gives_file(joined(pieces));
    }
}

/// A file of the QP or QP7 mode gives the segments that demultiplexing it at
/// once gives, in whatever pieces it arrives, and is refused for the same
/// reason.
pub proof fn law_qp_decoder_matches_batch(pieces: Seq<Seq<u8>>, lenient: bool)
    requires
        decode_all(pieces) is Some,
        decode_all(pieces)->Some_0.state.source is Ds2Qp,
    ensures
        decode_all(pieces)->Some_0.state.finish(lenient).1 == match demuxed(joined(pieces)) {
            Ok(DemuxModel::QpSegments { segments, total_frames: _ }) => Ok(
                StepModel::QpSegments(segments),
            ),
            Ok(DemuxModel::Qp7Segments { segments, total_frames: _ }) => Ok(
                StepModel::Qp7Segments(segments),
            ),
            Ok(DemuxModel::Sp { packets: _, total_frames: _ }) => Ok(StepModel::Idle),
            Err(error) => Err::<StepModel, ErrorModel>(error),
        },
{
    law_every_byte_counts_once(pieces);
}

} // verus!
