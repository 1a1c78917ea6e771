//! What the streaming decoder and the streamers do with bytes, said of the bytes
//! themselves.

use super::decoder::{DecodeStep, DecoderState, Source, StepModel};
use super::decrypt::{
    begins_with, is_plain, DecryptMode, DecryptState, DecryptStep, DecryptStepModel,
};
use super::decrypting::{
    reply_view, steps_view, DecryptingState, StreamStep, StreamStepModel,
};
use crate::demux::container::{
    audio_start, block_count, format_type, frame_total, is_ds2, lemma_frame_total_bound,
};
use crate::demux::ds2::{demux_defined, demuxed, DemuxModel};
use crate::demux::format::{detected, is_dss, AudioFormat};
use crate::demux::qp::qp_segments_view;
use crate::demux::qp7::qp7_segments_view;
use crate::demux::sp::frames_view;
use crate::demux::sp_stream::SpStream;
use crate::error::{DecodeError, ErrorModel};
use vstd::prelude::*;

verus! {

/// The magic numbers: a plain file begins with 1, 3 or 7 and `ds2`, or with 2, 3
/// or 6 and `dss`.
pub proof fn law_magic_numbers(bytes: Seq<u8>)
    ensures
        is_ds2(bytes) <==> bytes.len() >= 4 && (bytes[0] == 1 || bytes[0] == 3 || bytes[0] == 7)
            && bytes[1] == 'd' as int && bytes[2] == 's' as int && bytes[3] == '2' as int,
        is_dss(bytes) <==> bytes.len() >= 4 && (bytes[0] == 2 || bytes[0] == 3 || bytes[0] == 6)
            && bytes[1] == 'd' as int && bytes[2] == 's' as int && bytes[3] == 's' as int,
        is_plain(bytes) <==> is_ds2(bytes) || is_dss(bytes),
{
}

/// Bytes begin with others if they are as many or more and agree with each of
/// them.
pub proof fn law_begins_with_by_bytes(bytes: Seq<u8>, prefix: Seq<u8>)
    ensures
        begins_with(bytes, prefix) <==> prefix.len() <= bytes.len() && forall|i: int|
            0 <= i < prefix.len() ==> #[trigger] bytes[i] == prefix[i],
{
    if prefix.len() <= bytes.len() && forall|i: int|
        0 <= i < prefix.len() ==> #[trigger] bytes[i] == prefix[i] {
        assert(bytes.take(prefix.len() as int) =~= prefix);
    } else if begins_with(bytes, prefix) {
        assert forall|i: int| 0 <= i < prefix.len() implies #[trigger] bytes[i] == prefix[i] by {
            assert(bytes.take(prefix.len() as int)[i] == bytes[i]);
        }
    }
}

/// What a decoder does with bytes while it does not know the format. `seen` are
/// all bytes so far. Four or more that begin like no DS2 or DSS file are refused
/// with the first of them. Otherwise the format is the one that they tell, if they
/// tell one. If not they are kept. If so all of them are handed on at once: with
/// the first byte to the DSS or the Grundig demultiplexer, to a new stream of the
/// SP mode, or to the buffer of the QP and QP7 modes.
pub proof fn law_first_bytes(s: DecoderState, bytes: Seq<u8>)
    requires
        s.valid(),
        !s.finished,
        s.format is None,
    ensures
        ({
            let seen = s.prebuffer + bytes;
            let known = seen[1] == 'd' as int && seen[2] == 's' as int && (seen[3] == 's' as int && (
            seen[0] == 2 || seen[0] == 3 || seen[0] == 6) || seen[3] == '2' as int && (seen[0] == 1
                || seen[0] == 3 || seen[0] == 7));
            let (end, step) = s.push(bytes);
            &&& seen.len() >= 4 && !known ==> {
                &&& step == Err::<StepModel, ErrorModel>(ErrorModel::UnsupportedFormat(seen[0]))
                &&& end == (DecoderState { prebuffer: seen, ..s })
            }
            &&& seen.len() < 4 || known ==> {
                &&& step is Ok
                &&& !end.finished
                &&& end.format == detected(seen)
                &&& end.raw == s.raw || end.raw == s.raw + seen
                &&& match detected(seen) {
                    None => end == (DecoderState { prebuffer: seen, ..s }) && step->Ok_0
                        == StepModel::Idle,
                    Some(format) => {
                        &&& end.prebuffer.len() == 0
                        &&& format is DssSp ==> {
                            &&& end.source == Source::Dss(seen[0])
                            &&& step->Ok_0 == (StepModel::DssBytes { version: seen[0], bytes: seen })
                        }
                        &&& format is GrundigSp ==> {
                            &&& end.source == Source::Grundig(seen[0])
                            &&& step->Ok_0 == (StepModel::GrundigBytes {
                                header_blocks: seen[0],
                                bytes: seen,
                            })
                        }
                        &&& format is Ds2Sp ==> {
                            let (stream, packets) = SpStream::start().push(seen);
                            &&& end.source == Source::Ds2Sp(stream)
                            &&& step->Ok_0 == StepModel::Ds2SpFrames(packets)
                        }
                        &&& format is Ds2Qp || format is Ds2Qp7 ==> {
                            &&& end.source is Ds2Qp
                            &&& end.raw == s.raw + seen
                            &&& step->Ok_0 == StepModel::Idle
                        }
                    },
                }
            }
        }),
{
}

/// What a decoder does with bytes once it knows the format: they go where the
/// first ones went, and nothing else changes.
pub proof fn law_later_bytes(s: DecoderState, bytes: Seq<u8>)
    requires
        s.valid(),
        !s.finished,
        s.format is Some,
    ensures
        ({
            let (end, step) = s.push(bytes);
            &&& step is Ok
            &&& match s.source {
                Source::Dss(version) => end == s && step->Ok_0 == (StepModel::DssBytes {
                    version,
                    bytes,
                }),
                Source::Grundig(header_blocks) => end == s && step->Ok_0 == (
                StepModel::GrundigBytes { header_blocks, bytes }),
                Source::Ds2Sp(stream) => {
                    &&& end == (DecoderState { source: Source::Ds2Sp(stream.push(bytes).0), ..s })
                    &&& step->Ok_0 == StepModel::Ds2SpFrames(stream.push(bytes).1)
                },
                Source::Ds2Qp => end == (DecoderState { raw: s.raw + bytes, ..s }) && step->Ok_0
                    == StepModel::Idle,
                Source::Unset => false,
            }
        }),
{
}

/// How a decoder ends. Without any bytes it is finished. Bytes that have not told
/// a format are refused: as an incomplete header if they begin with 1, 3 or 7 and
/// `ds2`, and with the first of them otherwise. The demultiplexers outside are to
/// be finished, which does not finish the decoder yet. A stream of the SP mode
/// gives what it has left, and the buffered bytes of the QP and QP7 modes give
/// their segments; both finish the decoder unless they fail.
pub proof fn law_decoder_end(s: DecoderState, lenient: bool)
    requires
        s.valid(),
        !s.finished,
    ensures
        ({
            let (end, step) = s.finish(lenient);
            let kept = s.prebuffer;
            let named = kept.len() >= 4 && (kept[0] == 1 || kept[0] == 3 || kept[0] == 7) && kept[1]
                == 'd' as int && kept[2] == 's' as int && kept[3] == '2' as int;
            let done = DecoderState { finished: true, ..s };
            match s.source {
                Source::Unset => if kept.len() == 0 {
                    end == done && step == Ok::<StepModel, ErrorModel>(StepModel::Idle)
                } else {
                    &&& end == s
                    &&& step is Err
                    &&& named ==> step->Err_0 == ErrorModel::Truncated("DS2 header"@)
                    &&& !named ==> step->Err_0 == ErrorModel::UnsupportedFormat(kept[0])
                },
                Source::Dss(_) => end == s && step == Ok::<StepModel, ErrorModel>(
                    StepModel::DssEnd { lenient },
                ),
                Source::Grundig(_) => end == s && step == Ok::<StepModel, ErrorModel>(
                    StepModel::GrundigEnd { lenient },
                ),
                Source::Ds2Sp(stream) => if lenient {
                    match stream.finish_lenient() {
                        Ok((rest, packets)) => end == (DecoderState {
                            source: Source::Ds2Sp(rest),
                            ..done
                        }) && step == Ok::<StepModel, ErrorModel>(StepModel::Ds2SpFrames(packets)),
                        Err(error) => end == s && step == Err::<StepModel, ErrorModel>(error),
                    }
                } else {
                    match stream.finish() {
                        Ok(packets) => end == done && step == Ok::<StepModel, ErrorModel>(
                            StepModel::Ds2SpFrames(packets),
                        ),
                        Err(error) => end == s && step == Err::<StepModel, ErrorModel>(error),
                    }
                },
                Source::Ds2Qp => match demuxed(s.raw) {
                    Ok(DemuxModel::QpSegments { segments, total_frames: _ }) => end == done && step
                        == Ok::<StepModel, ErrorModel>(StepModel::QpSegments(segments)),
                    Ok(DemuxModel::Qp7Segments { segments, total_frames: _ }) => end == done && step
                        == Ok::<StepModel, ErrorModel>(StepModel::Qp7Segments(segments)),
                    Ok(DemuxModel::Sp { packets: _, total_frames: _ }) => end == done && step
                        == Ok::<StepModel, ErrorModel>(StepModel::Idle),
                    Err(error) => end == s && step == Err::<StepModel, ErrorModel>(error),
                },
            }
        }),
{
}

/// Which codec gets frames: that of the format, and the Grundig codec only if
/// there are any.
pub proof fn law_frames_go_to_their_codec(s: DecoderState, frames: Seq<Seq<u8>>)
    requires
        s.valid(),
    ensures
        s.format is None ==> s.frames_step(frames) == StepModel::Idle,
        s.format == Some(AudioFormat::DssSp) ==> s.frames_step(frames) == StepModel::DssFrames(
            frames,
        ),
        s.format == Some(AudioFormat::Ds2Sp) ==> s.frames_step(frames) == StepModel::Ds2SpFrames(
            frames,
        ),
        s.format == Some(AudioFormat::Ds2Qp) || s.format == Some(AudioFormat::Ds2Qp7)
            ==> s.frames_step(frames) == StepModel::QpFrames(frames),
        s.format == Some(AudioFormat::GrundigSp) ==> s.frames_step(frames) == if frames.len() > 0 {
            StepModel::GrundigFrames(frames)
        } else {
            StepModel::Idle
        },
        s.done() == (DecoderState { finished: true, ..s }),
{
}

/// Which files can be demultiplexed or refused, said of their bytes: all but those
/// of the SP mode that end where their blocks should begin, or whose last packet
/// begins behind the payload. Packet `k` begins at `41 * k`, and one byte before
/// or behind that if `k` is odd and the first packet is swapped or not.
pub proof fn law_demux_defined_by_bytes(data: Seq<u8>)
    ensures
        ({
            let named = data.len() >= 4 && (data[0] == 1 || data[0] == 3 || data[0] == 7) && data[1]
                == 'd' as int && data[2] == 's' as int && data[3] == '2' as int;
            let start = audio_start(data);
            let n = if data.len() < start {
                0
            } else {
                (data.len() - start) / 512
            };
            let total = frame_total(data, start, n as nat);
            let last = total - 1;
            let place = 41 * last + if last % 2 == 0 {
                0int
            } else if data[start] / 128 == 1 {
                -1
            } else {
                1
            };
            demux_defined(data) <==> {
                ||| !named
                ||| format_type(data, start) >= 6
                ||| data.len() > start && (total == 0 || place <= 506 * n)
            }
        }),
{
    let start = audio_start(data);
    let n = block_count(data, start);
    lemma_frame_total_bound(data, start, 0, n);
    let total = frame_total(data, start, n);
    if total > 0 {
        crate::demux::sp_byte_laws::lemma_offset_value(data[start] >= 0x80, (total - 1) as nat);
    }
}

/// What a streamer does with bytes while it does not know whether they are
/// encrypted. `seen` are all bytes so far. Fewer than four are kept. If they begin
/// with the magic number of encrypted files, a block decryptor is to be made for
/// the password and to be given all of them, and without a password they are
/// refused and kept. Otherwise, if they begin like a DS2 or DSS file, all of them
/// are passed on, and later bytes too. All others are refused with the first byte.
pub proof fn law_first_bytes_of_streamer(s: DecryptState, bytes: Seq<u8>)
    requires
        s.mode is Unknown,
    ensures
        ({
            let seen = s.prebuffer + bytes;
            let encrypted = s.magic.len() <= seen.len() && forall|i: int|
                0 <= i < s.magic.len() ==> #[trigger] seen[i] == s.magic[i];
            let plain = seen[1] == 'd' as int && seen[2] == 's' as int && (seen[3] == 's' as int && (
            seen[0] == 2 || seen[0] == 3 || seen[0] == 6) || seen[3] == '2' as int && (seen[0] == 1
                || seen[0] == 3 || seen[0] == 7));
            let kept = DecryptState { prebuffer: seen, ..s };
            let empty = DecryptState { prebuffer: Seq::empty(), ..s };
            s.push(bytes) == if seen.len() < 4 {
                (kept, Ok::<DecryptStepModel, ErrorModel>(DecryptStepModel::Plain(Seq::empty())))
            } else if encrypted && s.password is None {
                (
                    kept,
                    Err(ErrorModel::EncryptedDs2("password required for encrypted DS2 input"@)),
                )
            } else if encrypted {
                (
                    empty,
                    Ok(DecryptStepModel::Open { password: s.password->Some_0, bytes: seen }),
                )
            } else if plain {
                (
                    DecryptState { mode: DecryptMode::PassThrough, ..empty },
                    Ok(DecryptStepModel::Plain(seen)),
                )
            } else {
                (kept, Err(ErrorModel::UnsupportedFormat(seen[0])))
            }
        }),
{
    law_begins_with_by_bytes(s.prebuffer + bytes, s.magic);
}

/// What a streamer does later: plain bytes are passed on, and encrypted ones go to
/// the block decryptor. A decryptor that has taken its first bytes makes the input
/// count as encrypted, and one that has not changes nothing.
pub proof fn law_later_bytes_of_streamer(s: DecryptState, bytes: Seq<u8>)
    ensures
        s.mode is PassThrough ==> s.push(bytes) == (
            s,
            Ok::<DecryptStepModel, ErrorModel>(DecryptStepModel::Plain(bytes)),
        ),
        s.mode is Encrypted ==> s.push(bytes) == (
            s,
            Ok::<DecryptStepModel, ErrorModel>(DecryptStepModel::Cipher(bytes)),
        ),
        s.opened(true) == (DecryptState { mode: DecryptMode::Encrypted, ..s }),
        s.opened(false) == s,
{
}

/// How a streamer ends. A block decryptor at work is to be finished. Otherwise
/// what is kept is passed on; but bytes of which it is not known whether they are
/// encrypted are refused if there are some and they agree with the magic number of
/// encrypted files as far as they go and no further than it goes, and also if they
/// are four or more and begin like no DS2 or DSS file.
pub proof fn law_streamer_end(s: DecryptState)
    ensures
        ({
            let kept = s.prebuffer;
            let partial = kept.len() <= s.magic.len() && forall|i: int|
                0 <= i < kept.len() ==> #[trigger] s.magic[i] == kept[i];
            let plain = kept[1] == 'd' as int && kept[2] == 's' as int && (kept[3] == 's' as int && (
            kept[0] == 2 || kept[0] == 3 || kept[0] == 6) || kept[3] == '2' as int && (kept[0] == 1
                || kept[0] == 3 || kept[0] == 7));
            let empty = DecryptState { prebuffer: Seq::empty(), ..s };
            let passed = (empty, Ok::<DecryptStepModel, ErrorModel>(DecryptStepModel::Plain(kept)));
            s.finish() == if s.mode is Encrypted {
                (s, Ok::<DecryptStepModel, ErrorModel>(DecryptStepModel::CipherEnd))
            } else if s.mode is PassThrough || kept.len() == 0 {
                passed
            } else if partial {
                (s, Err(ErrorModel::Truncated("encrypted DS2 header"@)))
            } else if kept.len() >= 4 && !plain {
                (s, Err(ErrorModel::UnsupportedFormat(kept[0])))
            } else {
                passed
            }
        }),
{
    law_begins_with_by_bytes(s.magic, s.prebuffer);
    if s.prebuffer.len() == 0 {
        assert(s.prebuffer =~= Seq::empty());
    }
}

/// How the streamer that also decodes passes bytes on: plain bytes go to the
/// decoder, whatever it says is handed out, and work for the block decryptor is
/// handed out as it is. Refusals of any part come out unchanged.
pub proof fn law_streamer_hands_on(s: DecryptingState, bytes: Seq<u8>)
    requires
        !s.finished,
    ensures
        ({
            let (decryptor, told) = s.decryptor.push(bytes);
            let (end, step) = s.push(bytes);
            &&& end.decryptor == decryptor
            &&& !end.finished
            &&& match told {
                Err(error) => end.inner == s.inner && step == Err::<StreamStepModel, ErrorModel>(
                    error,
                ),
                Ok(DecryptStepModel::Plain(plain)) => {
                    &&& end.inner == s.inner.push(plain).0
                    &&& match s.inner.push(plain).1 {
                        Err(error) => step == Err::<StreamStepModel, ErrorModel>(error),
                        Ok(done) => step == Ok::<StreamStepModel, ErrorModel>(
                            StreamStepModel::Decode(seq![done]),
                        ),
                    }
                },
                Ok(work) => end.inner == s.inner && step == Ok::<StreamStepModel, ErrorModel>(
                    StreamStepModel::Decrypt(work),
                ),
            }
        }),
{
}

/// What becomes of the replies of the block decryptor: a refusal comes out
/// unchanged and changes nothing, and plain bytes go to the decoder. Only the
/// first reply makes the input count as encrypted.
pub proof fn law_replies_of_the_decryptor(
    s: DecryptingState,
    plain: Seq<u8>,
    error: ErrorModel,
    lenient: bool,
)
    ensures
        s.opened(Err(error)) == (s, Err::<StepModel, ErrorModel>(error)),
        s.decrypted(Err(error)) == (s, Err::<StepModel, ErrorModel>(error)),
        s.decrypted_end(Err(error), lenient) == (s, Err::<StreamStepModel, ErrorModel>(error)),
        s.decrypted(Ok(plain)) == (
            DecryptingState { inner: s.inner.push(plain).0, ..s },
            s.inner.push(plain).1,
        ),
        s.opened(Ok(plain)) == (
            DecryptingState {
                inner: s.inner.push(plain).0,
                decryptor: DecryptState { mode: DecryptMode::Encrypted, ..s.decryptor },
                ..s
            },
            s.inner.push(plain).1,
        ),
        s.decrypted_end(Ok(plain), lenient) == s.push_last(plain, lenient),
{
}

/// Ending the decoder finishes the streamer if and only if it succeeds and leaves
/// no demultiplexer outside to be finished.
pub proof fn law_streamer_is_finished(s: DecryptingState, lenient: bool)
    requires
        !s.finished,
    ensures
        ({
            let (inner, step) = s.inner.finish(lenient);
            &&& s.finish_rest(lenient).1 == step
            &&& s.finish_rest(lenient).0.inner == inner
            &&& s.finish_rest(lenient).0.decryptor == s.decryptor
            &&& s.finish_rest(lenient).0.finished <==> step is Ok && !(step->Ok_0 is DssEnd)
                && !(step->Ok_0 is GrundigEnd) && !(step->Ok_0 is DssBytes) && !(
            step->Ok_0 is GrundigBytes)
        }),
{
}

/// What ends a streamer that still decodes: the block decryptor is to be finished,
/// or what was kept goes to the decoder as the last bytes, or it is refused.
pub proof fn law_streamer_ends_by_its_parts(s: DecryptingState, lenient: bool)
    requires
        !s.finished,
    ensures
        ({
            let (decryptor, told) = s.decryptor.finish();
            let after = DecryptingState { decryptor, ..s };
            s.finish(lenient) == match told {
                Err(error) => (after, Err::<StreamStepModel, ErrorModel>(error)),
                Ok(DecryptStepModel::Plain(plain)) => after.push_last(plain, lenient),
                Ok(work) => (after, Ok(StreamStepModel::Decrypt(work))),
            }
        }),
{
}

/// Which steps are nothing: an idle one, and lists without frames or segments.
/// Which are work outside: bytes for, and the end of, the demultiplexers for DSS
/// and Grundig files.
pub proof fn law_kinds_of_steps(step: StepModel, steps: Seq<StepModel>, work: DecryptStepModel)
    ensures
        step.is_outside() <==> match step {
            StepModel::DssBytes { version: _, bytes: _ } => true,
            StepModel::GrundigBytes { header_blocks: _, bytes: _ } => true,
            StepModel::DssEnd { lenient: _ } => true,
            StepModel::GrundigEnd { lenient: _ } => true,
            _ => false,
        },
        step.is_nothing() <==> match step {
            StepModel::Idle => true,
            StepModel::DssBytes { version: _, bytes: _ } => false,
            StepModel::GrundigBytes { header_blocks: _, bytes: _ } => false,
            StepModel::DssEnd { lenient: _ } => false,
            StepModel::GrundigEnd { lenient: _ } => false,
            StepModel::DssFrames(frames) => frames.len() == 0,
            StepModel::Ds2SpFrames(frames) => frames.len() == 0,
            StepModel::QpFrames(frames) => frames.len() == 0,
            StepModel::GrundigFrames(frames) => frames.len() == 0,
            StepModel::QpSegments(segments) => segments.len() == 0,
            StepModel::Qp7Segments(segments) => segments.len() == 0,
        },
        StreamStepModel::Decode(steps).is_nothing() <==> forall|i: int|
            0 <= i < steps.len() ==> (#[trigger] steps[i]).is_nothing(),
        !StreamStepModel::DecodeThenFinish(step).is_nothing(),
        !StreamStepModel::Decrypt(work).is_nothing(),
{
}

/// The states before the first byte hold nothing.
pub proof fn law_start_is_empty(password: Option<Seq<u8>>, magic: Seq<u8>)
    ensures
        ({
            let s = DecryptingState::start(password, magic);
            &&& !s.finished && !s.inner.finished
            &&& s.inner == DecoderState::start()
            &&& s.inner.prebuffer.len() == 0 && s.inner.raw.len() == 0
            &&& s.inner.format is None && s.inner.source is Unset
            &&& s.decryptor == DecryptState::start(password, magic)
            &&& s.decryptor.password == password && s.decryptor.magic == magic
            &&& s.decryptor.prebuffer.len() == 0 && s.decryptor.mode is Unknown
        }),
{
}

/// The value of a step is what its parts hold.
pub proof fn law_step_value(step: DecodeStep)
    ensures
        match step {
            DecodeStep::Idle => step@ == StepModel::Idle,
            DecodeStep::DssBytes { version, bytes } => step@ == (StepModel::DssBytes {
                version,
                bytes: bytes@,
            }),
            DecodeStep::GrundigBytes { header_blocks, bytes } => step@ == (
            StepModel::GrundigBytes { header_blocks, bytes: bytes@ }),
            DecodeStep::DssEnd { lenient } => step@ == (StepModel::DssEnd { lenient }),
            DecodeStep::GrundigEnd { lenient } => step@ == (StepModel::GrundigEnd { lenient }),
            DecodeStep::DssFrames(frames) => step@ == StepModel::DssFrames(frames_view(frames@)),
            DecodeStep::Ds2SpFrames(frames) => step@ == StepModel::Ds2SpFrames(
                frames_view(frames@),
            ),
            DecodeStep::QpFrames(frames) => step@ == StepModel::QpFrames(frames_view(frames@)),
            DecodeStep::GrundigFrames(frames) => step@ == StepModel::GrundigFrames(
                frames_view(frames@),
            ),
            DecodeStep::QpSegments(segments) => step@ == StepModel::QpSegments(
                qp_segments_view(segments@),
            ),
            DecodeStep::Qp7Segments(segments) => step@ == StepModel::Qp7Segments(
                qp7_segments_view(segments@),
            ),
        },
{
}

/// The values of the steps of the streamers, of replies and of errors are what
/// their parts hold.
pub proof fn law_streamer_values(
    step: StreamStep,
    work: DecryptStep,
    reply: Result<Vec<u8>, DecodeError>,
    error: DecodeError,
)
    ensures
        match step {
            StreamStep::Decode(steps) => {
                &&& step@ == StreamStepModel::Decode(steps_view(steps@))
                &&& steps_view(steps@).len() == steps@.len()
                &&& forall|i: int|
                    0 <= i < steps@.len() ==> #[trigger] steps_view(steps@)[i] == steps@[i]@
            },
            StreamStep::DecodeThenFinish(inner) => step@ == StreamStepModel::DecodeThenFinish(
                inner@,
            ),
            StreamStep::Decrypt(inner) => step@ == StreamStepModel::Decrypt(inner@),
        },
        match work {
            DecryptStep::Plain(bytes) => work@ == DecryptStepModel::Plain(bytes@),
            DecryptStep::Open { password, bytes } => work@ == (DecryptStepModel::Open {
                password: password@,
                bytes: bytes@,
            }),
            DecryptStep::Cipher(bytes) => work@ == DecryptStepModel::Cipher(bytes@),
            DecryptStep::CipherEnd => work@ == DecryptStepModel::CipherEnd,
        },
        reply_view(reply) == match reply {
            Ok(bytes) => Ok::<Seq<u8>, ErrorModel>(bytes@),
            Err(error) => Err(error@),
        },
        match error {
            DecodeError::NotDs2(name) => error@ == ErrorModel::NotDs2(name@),
            DecodeError::Truncated(part) => error@ == ErrorModel::Truncated(part@),
            DecodeError::UnsupportedFormat(byte) => error@ == ErrorModel::UnsupportedFormat(byte),
            DecodeError::EncryptedDs2(text) => error@ == ErrorModel::EncryptedDs2(text@),
            DecodeError::AlreadyFinished => error@ == ErrorModel::AlreadyFinished,
        },
{
}

/// More bytes can be counted unless they go to a stream of the SP mode that cannot
/// count them; kept bytes count with the new ones. Ending is undefined only for
/// unfinished decoders with buffered bytes of the QP and QP7 modes that cannot be
/// demultiplexed or refused, and for a streamer if its last bytes make it so.
pub proof fn law_room_and_end(s: DecoderState, t: DecryptingState, n: nat)
    ensures
        s.has_room(n) <==> match s.source {
            Source::Ds2Sp(stream) => stream.pending + stream.block.len() + n <= usize::MAX,
            _ => true,
        },
        s.can_end() <==> s.finished || !(s.source is Ds2Qp) || demux_defined(s.raw),
        t.has_room(n) <==> match t.inner.source {
            Source::Ds2Sp(stream) => stream.pending + stream.block.len()
                + t.decryptor.prebuffer.len() + n <= usize::MAX,
            _ => true,
        },
        t.can_end() <==> t.finished || match t.decryptor.finish().1 {
            Ok(DecryptStepModel::Plain(plain)) => t.inner.push(plain).0.can_end(),
            _ => true,
        },
{
}

/// The parts of a decoder's state belong together if and only if the bytes go to
/// the place that the format names, and while there is no format nowhere, with kept
/// bytes that do not tell one.
pub proof fn law_validity(s: DecoderState)
    ensures
        s.valid() <==> {
            &&& s.format is None <==> s.source is Unset
            &&& s.format is None ==> detected(s.prebuffer) is None
            &&& s.format == Some(AudioFormat::DssSp) <==> s.source is Dss
            &&& s.format == Some(AudioFormat::GrundigSp) <==> s.source is Grundig
            &&& s.format == Some(AudioFormat::Ds2Sp) <==> s.source is Ds2Sp
            &&& s.format == Some(AudioFormat::Ds2Qp) || s.format == Some(AudioFormat::Ds2Qp7)
                <==> s.source is Ds2Qp
        },
{
}

} // verus!
