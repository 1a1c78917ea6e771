//! Decoding a file that may be encrypted while its bytes arrive.

use super::decoder::{DecodeStep, StreamingDecoder};
use super::decoder::{DecoderState, StepModel};
use super::decrypt::{DecryptStep, DecryptStreamer};
use super::decrypt::{DecryptState, DecryptStepModel};
use crate::demux::format::AudioFormat;
use crate::demux::sp::frames_view;
use crate::error::{DecodeError, ErrorModel};
use vstd::prelude::*;

verus! {

/// What is to be done next.
#[derive(Debug, Clone, PartialEq, Eq)]
pub enum StreamStep {
    /// These steps are to be done in order.
    Decode(Vec<DecodeStep>),
    /// This step is to be done with the last bytes; if it succeeds,
    /// [`DecryptingDecoderStreamer::finish_rest`] goes on.
    DecodeThenFinish(DecodeStep),
    /// The block decryptor is to be given bytes or to be finished. Its reply
    /// goes to [`DecryptingDecoderStreamer::opened`] if it is new, to
    /// [`DecryptingDecoderStreamer::decrypted_end`] if it has been finished,
    /// and to [`DecryptingDecoderStreamer::decrypted`] otherwise.
    Decrypt(DecryptStep),
}

/// The mathematical value of a [`StreamStep`].
pub enum StreamStepModel {
    Decode(Seq<StepModel>),
    DecodeThenFinish(StepModel),
    Decrypt(DecryptStepModel),
}

/// The values of a list of steps.
pub open spec fn steps_view(steps: Seq<DecodeStep>) -> Seq<StepModel> {
    steps.map_values(|step: DecodeStep| step@)
}

impl View for StreamStep {
    type V = StreamStepModel;

    open spec fn view(&self) -> StreamStepModel {
        match self {
            StreamStep::Decode(steps) => StreamStepModel::Decode(steps_view(steps@)),
            StreamStep::DecodeThenFinish(step) => StreamStepModel::DecodeThenFinish(step@),
            StreamStep::Decrypt(step) => StreamStepModel::Decrypt(step@),
        }
    }
}

/// Whether nothing comes of any of the steps.
pub open spec fn all_nothing(steps: Seq<StepModel>) -> bool {
    forall|i: int| 0 <= i < steps.len() ==> (#[trigger] steps[i]).is_nothing()
}

impl StreamStepModel {
    /// Whether no samples come of the step, and nothing else either.
    pub open spec fn is_nothing(self) -> bool {
        match self {
            StreamStepModel::Decode(steps) => all_nothing(steps),
            _ => false,
        }
    }
}

impl StreamStep {
    /// Whether no samples come of the step, and nothing else either.
    pub fn is_empty(&self) -> (res: bool)
        ensures
            res == self@.is_nothing(),
    {
        match self {
            StreamStep::Decode(steps) => {
                let mut i: usize = 0;
                while i < steps.len()
                    invariant
                        self@ == StreamStepModel::Decode(steps_view(steps@)),
                        i <= steps@.len(),
                        forall|j: int|
                            0 <= j < i ==> (#[trigger] steps_view(steps@)[j]).is_nothing(),
                    decreases steps@.len() - i,
                {
                    if !steps[i].is_empty() {
                        assert(!steps_view(steps@)[i as int].is_nothing());
                        return false;
                    }
                    i += 1;
                }
                true
            },
            _ => false,
        }
    }
}

/// The state of a [`DecryptingDecoderStreamer`].
pub struct DecryptingState {
    /// The state of the part that tells plain from encrypted input.
    pub decryptor: DecryptState,
    /// The state of the decoder for the plain bytes.
    pub inner: DecoderState,
    /// Whether the end has been decoded.
    pub finished: bool,
}

impl DecryptingState {
    /// The state before the first byte.
    pub open spec fn start(password: Option<Seq<u8>>, magic: Seq<u8>) -> DecryptingState {
        DecryptingState {
            decryptor: DecryptState::start(password, magic),
            inner: DecoderState::start(),
            finished: false,
        }
    }

    /// Whether `n` more bytes can be counted.
    pub open spec fn has_room(self, n: nat) -> bool {
        self.inner.has_room(self.decryptor.prebuffer.len() + n)
    }

    /// Whether ending is defined.
    pub open spec fn can_end(self) -> bool {
        self.finished || (self.decryptor.finish().1 matches Ok(DecryptStepModel::Plain(plain))
            ==> self.inner.push(plain).0.can_end())
    }

    /// Plain bytes arrive.
    pub open spec fn push_plain(self, plain: Seq<u8>) -> (
        DecryptingState,
        Result<StepModel, ErrorModel>,
    ) {
        let (inner, step) = self.inner.push(plain);
        (DecryptingState { inner, ..self }, step)
    }

    /// Bytes arrive.
    pub open spec fn push(self, bytes: Seq<u8>) -> (
        DecryptingState,
        Result<StreamStepModel, ErrorModel>,
    ) {
        if self.finished {
            (self, Err(ErrorModel::AlreadyFinished))
        } else {
            let (decryptor, step) = self.decryptor.push(bytes);
            let told = DecryptingState { decryptor, ..self };
            match step {
                Err(error) => (told, Err(error)),
                Ok(DecryptStepModel::Plain(plain)) => match told.push_plain(plain) {
                    (end, Ok(step)) => (end, Ok(StreamStepModel::Decode(seq![step]))),
                    (end, Err(error)) => (end, Err(error)),
                },
                Ok(step) => (told, Ok(StreamStepModel::Decrypt(step))),
            }
        }
    }

    /// A new block decryptor has replied to its first bytes.
    pub open spec fn opened(self, reply: Result<Seq<u8>, ErrorModel>) -> (
        DecryptingState,
        Result<StepModel, ErrorModel>,
    ) {
        match reply {
            Err(error) => (self, Err(error)),
            Ok(plain) => DecryptingState {
                decryptor: self.decryptor.opened(true),
                ..self
            }.push_plain(plain),
        }
    }

    /// The block decryptor has replied to more bytes.
    pub open spec fn decrypted(self, reply: Result<Seq<u8>, ErrorModel>) -> (
        DecryptingState,
        Result<StepModel, ErrorModel>,
    ) {
        match reply {
            Err(error) => (self, Err(error)),
            Ok(plain) => self.push_plain(plain),
        }
    }

    /// All plain bytes have been decoded. Unless a demultiplexer outside has
    /// still to be finished, that is the end.
    pub open spec fn finish_rest(self, lenient: bool) -> (
        DecryptingState,
        Result<StepModel, ErrorModel>,
    ) {
        let (inner, step) = self.inner.finish(lenient);
        (
            DecryptingState {
                inner,
                finished: self.finished || (step matches Ok(step) && !step.is_outside()),
                ..self
            },
            step,
        )
    }

    /// The last plain bytes arrive. What they complete is handed out before the
    /// decoder is ended, so that it is decoded even if ending fails.
    pub open spec fn push_last(self, plain: Seq<u8>, lenient: bool) -> (
        DecryptingState,
        Result<StreamStepModel, ErrorModel>,
    ) {
        match self.push_plain(plain) {
            (end, Err(error)) => (end, Err(error)),
            (mid, Ok(step)) => if step.is_nothing() {
                match mid.finish_rest(lenient) {
                    (end, Err(error)) => (end, Err(error)),
                    (end, Ok(last)) => (end, Ok(StreamStepModel::Decode(seq![last]))),
                }
            } else {
                (mid, Ok(StreamStepModel::DecodeThenFinish(step)))
            },
        }
    }

    /// The bytes end here.
    pub open spec fn finish(self, lenient: bool) -> (
        DecryptingState,
        Result<StreamStepModel, ErrorModel>,
    ) {
        if self.finished {
            (self, Ok(StreamStepModel::Decode(Seq::empty())))
        } else {
            let (decryptor, step) = self.decryptor.finish();
            let told = DecryptingState { decryptor, ..self };
            match step {
                Err(error) => (told, Err(error)),
                Ok(DecryptStepModel::Plain(plain)) => told.push_last(plain, lenient),
                Ok(step) => (told, Ok(StreamStepModel::Decrypt(step))),
            }
        }
    }

    /// The finished block decryptor has replied with the last bytes.
    pub open spec fn decrypted_end(self, reply: Result<Seq<u8>, ErrorModel>, lenient: bool) -> (
        DecryptingState,
        Result<StreamStepModel, ErrorModel>,
    ) {
        match reply {
            Err(error) => (self, Err(error)),
            Ok(plain) => self.push_last(plain, lenient),
        }
    }
}

/// The value of a block decryptor's reply.
pub open spec fn reply_view(reply: Result<Vec<u8>, DecodeError>) -> Result<Seq<u8>, ErrorModel> {
    match reply {
        Ok(plain) => Ok(plain@),
        Err(error) => Err(error@),
    }
}

/// Takes the bytes of a plain or encrypted file as they arrive and says what is
/// to be deciphered and decoded.
pub struct DecryptingDecoderStreamer {
    decryptor: DecryptStreamer,
    inner: StreamingDecoder,
    finished: bool,
}

impl View for DecryptingDecoderStreamer {
    type V = DecryptingState;

    closed spec fn view(&self) -> DecryptingState {
        DecryptingState {
            decryptor: self.decryptor@,
            inner: self.inner@,
            finished: self.finished,
        }
    }
}

/// A list of one step.
fn one_step(step: DecodeStep) -> (steps: StreamStep)
    ensures
        steps@ == StreamStepModel::Decode(seq![step@]),
{
    let mut steps: Vec<DecodeStep> = Vec::new();
    steps.push(step);
    assert(steps_view(steps@) =~= seq![step@]);
    StreamStep::Decode(steps)
}

impl DecryptingDecoderStreamer {
    /// A streamer that has seen no bytes. `encrypted_magic` is the magic number
    /// of the files that the block decryptor understands.
    pub fn new(password: Option<&[u8]>, encrypted_magic: &[u8]) -> (streamer: Self)
        ensures
            streamer@ == DecryptingState::start(
                match password {
                    Some(value) => Some(value@),
                    None => None,
                },
                encrypted_magic@,
            ),
            streamer@.inner.valid(),
    {
        DecryptingDecoderStreamer {
            decryptor: DecryptStreamer::new(password, encrypted_magic),
            inner: StreamingDecoder::new(),
            finished: false,
        }
    }

    /// Takes more bytes and says what is to be done with them.
    pub fn push(&mut self, bytes: &[u8]) -> (res: Result<StreamStep, DecodeError>)
        requires
            old(self)@.inner.valid(),
            old(self)@.has_room(bytes@.len()),
        ensures
            final(self)@.inner.valid(),
            final(self)@ == old(self)@.push(bytes@).0,
            match old(self)@.push(bytes@).1 {
                Ok(step) => res is Ok && res->Ok_0@ == step,
                Err(error) => res is Err && res->Err_0@ == error,
            },
    {
        if self.finished {
            return Err(DecodeError::AlreadyFinished);
        }
        match self.decryptor.push(bytes) {
            Err(error) => Err(error),
            Ok(DecryptStep::Plain(plain)) => match self.inner.push(plain.as_slice()) {
                Ok(step) => Ok(one_step(step)),
                Err(error) => Err(error),
            },
            Ok(step) => Ok(StreamStep::Decrypt(step)),
        }
    }

    /// Reports what a new block decryptor made of its first bytes, and says
    /// what is to be done with the plain bytes.
    pub fn opened(&mut self, reply: Result<Vec<u8>, DecodeError>) -> (res: Result<
        DecodeStep,
        DecodeError,
    >)
        requires
            old(self)@.inner.valid(),
            reply matches Ok(plain) ==> old(self)@.inner.has_room(plain@.len()),
        ensures
            final(self)@.inner.valid(),
            final(self)@ == old(self)@.opened(reply_view(reply)).0,
            match old(self)@.opened(reply_view(reply)).1 {
                Ok(step) => res is Ok && res->Ok_0@ == step,
                Err(error) => res is Err && res->Err_0@ == error,
            },
    {
        match self.decryptor.opened(reply) {
            Err(error) => Err(error),
            Ok(plain) => self.inner.push(plain.as_slice()),
        }
    }

    /// Reports what the block decryptor made of more bytes, and says what is
    /// to be done with the plain bytes.
    pub fn decrypted(&mut self, reply: Result<Vec<u8>, DecodeError>) -> (res: Result<
        DecodeStep,
        DecodeError,
    >)
        requires
            old(self)@.inner.valid(),
            reply matches Ok(plain) ==> old(self)@.inner.has_room(plain@.len()),
        ensures
            final(self)@.inner.valid(),
            final(self)@ == old(self)@.decrypted(reply_view(reply)).0,
            match old(self)@.decrypted(reply_view(reply)).1 {
                Ok(step) => res is Ok && res->Ok_0@ == step,
                Err(error) => res is Err && res->Err_0@ == error,
            },
    {
        match reply {
            Err(error) => Err(error),
            Ok(plain) => self.inner.push(plain.as_slice()),
        }
    }

    /// Ends the input and says what is left to be done.
    pub fn finish(&mut self) -> (res: Result<StreamStep, DecodeError>)
        requires
            old(self)@.inner.valid(),
            old(self)@.has_room(0),
            old(self)@.can_end(),
        ensures
            final(self)@.inner.valid(),
            final(self)@ == old(self)@.finish(false).0,
            match old(self)@.finish(false).1 {
                Ok(step) => res is Ok && res->Ok_0@ == step,
                Err(error) => res is Err && res->Err_0@ == error,
            },
    {
        self.close(false)
    }

    /// Ends the input, tolerating that its last frames are incomplete, and says
    /// what is left to be done.
    pub fn finish_lenient(&mut self) -> (res: Result<StreamStep, DecodeError>)
        requires
            old(self)@.inner.valid(),
            old(self)@.has_room(0),
            old(self)@.can_end(),
        ensures
            final(self)@.inner.valid(),
            final(self)@ == old(self)@.finish(true).0,
            match old(self)@.finish(true).1 {
                Ok(step) => res is Ok && res->Ok_0@ == step,
                Err(error) => res is Err && res->Err_0@ == error,
            },
    {
        self.close(true)
    }

    /// Ends the input, leniently or not.
    fn close(&mut self, lenient: bool) -> (res: Result<StreamStep, DecodeError>)
        requires
            old(self)@.inner.valid(),
            old(self)@.has_room(0),
            old(self)@.can_end(),
        ensures
            final(self)@.inner.valid(),
            final(self)@ == old(self)@.finish(lenient).0,
            match old(self)@.finish(lenient).1 {
                Ok(step) => res is Ok && res->Ok_0@ == step,
                Err(error) => res is Err && res->Err_0@ == error,
            },
    {
        if self.finished {
            let none: Vec<DecodeStep> = Vec::new();
            assert(steps_view(none@) =~= Seq::empty());
            return Ok(StreamStep::Decode(none));
        }
        match self.decryptor.finish() {
            Err(error) => Err(error),
            Ok(DecryptStep::Plain(plain)) => self.push_last(plain, lenient),
            Ok(step) => Ok(StreamStep::Decrypt(step)),
        }
    }

    /// Takes the last plain bytes and ends the decoder, unless something is to be
    /// done with the bytes before.
    fn push_last(&mut self, plain: Vec<u8>, lenient: bool) -> (res: Result<
        StreamStep,
        DecodeError,
    >)
        requires
            old(self)@.inner.valid(),
            old(self)@.inner.has_room(plain@.len()),
            old(self)@.inner.push(plain@).0.can_end(),
        ensures
            final(self)@.inner.valid(),
            final(self)@ == old(self)@.push_last(plain@, lenient).0,
            match old(self)@.push_last(plain@, lenient).1 {
                Ok(step) => res is Ok && res->Ok_0@ == step,
                Err(error) => res is Err && res->Err_0@ == error,
            },
    {
        match self.inner.push(plain.as_slice()) {
            Err(error) => Err(error),
            Ok(step) => {
                if !step.is_empty() {
                    return Ok(StreamStep::DecodeThenFinish(step));
                }
                match self.finish_rest(lenient) {
                    Err(error) => Err(error),
                    Ok(last) => Ok(one_step(last)),
                }
            },
        }
    }

    /// Ends the decoder after the last bytes have been dealt with.
    pub fn finish_rest(&mut self, lenient: bool) -> (res: Result<DecodeStep, DecodeError>)
        requires
            old(self)@.inner.valid(),
            old(self)@.inner.can_end(),
        ensures
            final(self)@.inner.valid(),
            final(self)@ == old(self)@.finish_rest(lenient).0,
            match old(self)@.finish_rest(lenient).1 {
                Ok(step) => res is Ok && res->Ok_0@ == step,
                Err(error) => res is Err && res->Err_0@ == error,
            },
    {
        let ended: Result<DecodeStep, DecodeError> = if lenient {
            self.inner.finish_lenient()
        } else {
            self.inner.finish()
        };
        match &ended {
            Ok(step) => {
                if !step.is_outside() {
                    self.finished = true;
                }
            },
            Err(_) => {},
        }
        ended
    }

    /// Reports what the finished block decryptor handed out last, and says what
    /// is left to be done.
    pub fn decrypted_end(&mut self, reply: Result<Vec<u8>, DecodeError>, lenient: bool) -> (res:
        Result<StreamStep, DecodeError>)
        requires
            old(self)@.inner.valid(),
            reply matches Ok(plain) ==> old(self)@.inner.has_room(plain@.len()) && old(
                self,
            )@.inner.push(plain@).0.can_end(),
        ensures
            final(self)@.inner.valid(),
            final(self)@ == old(self)@.decrypted_end(reply_view(reply), lenient).0,
            match old(self)@.decrypted_end(reply_view(reply), lenient).1 {
                Ok(step) => res is Ok && res->Ok_0@ == step,
                Err(error) => res is Err && res->Err_0@ == error,
            },
    {
        match reply {
            Err(error) => Err(error),
            Ok(plain) => self.push_last(plain, lenient),
        }
    }

    /// Says what is to be done with frames that a demultiplexer outside has
    /// handed out.
    pub fn decode_frames(&self, frames: Vec<Vec<u8>>) -> (step: DecodeStep)
        ensures
            step@ == self@.inner.frames_step(frames_view(frames@)),
    {
        self.inner.decode_frames(frames)
    }

    /// Reports how finishing the demultiplexer outside went. If it succeeded
    /// that is the end, and the last frames are to be decoded.
    pub fn ended(&mut self, reply: Result<Vec<Vec<u8>>, DecodeError>) -> (res: Result<
        DecodeStep,
        DecodeError,
    >)
        requires
            old(self)@.inner.valid(),
        ensures
            final(self)@.inner.valid(),
            match reply {
                Ok(frames) => {
                    &&& final(self)@ == (DecryptingState {
                        inner: old(self)@.inner.done(),
                        finished: true,
                        ..old(self)@
                    })
                    &&& res is Ok
                    &&& res->Ok_0@ == old(self)@.inner.frames_step(frames_view(frames@))
                },
                Err(error) => {
                    &&& final(self)@ == old(self)@
                    &&& res is Err
                    &&& res->Err_0 == error
                },
            },
    {
        let res = self.inner.ended(reply);
        if res.is_ok() {
            self.finished = true;
        }
        res
    }

    /// The format of the file, once it is known.
    pub fn format(&self) -> (format: Option<AudioFormat>)
        ensures
            format == self@.inner.format,
    {
        self.inner.format()
    }

    /// The rate of the samples in Hertz, once the format is known.
    pub fn native_rate(&self) -> (rate: Option<u32>)
        ensures
            rate == match self@.inner.format {
                Some(format) => Some(format.rate()),
                None => None,
            },
    {
        self.inner.native_rate()
    }

    /// Whether `n` more bytes can be counted.
    pub fn has_room(&self, n: usize) -> (res: bool)
        ensures
            res == self@.has_room(n as nat),
    {
        match self.decryptor.buffered().checked_add(n) {
            Some(total) => self.inner.has_room(total),
            None => !self.inner.is_counting(),
        }
    }

    /// Whether ending is defined.
    pub fn can_end(&self) -> (res: bool)
        ensures
            res == self@.can_end(),
    {
        if self.finished {
            return true;
        }
        match self.decryptor.ending() {
            Ok(DecryptStep::Plain(plain)) => self.inner.can_end_after(plain.as_slice()),
            _ => true,
        }
    }

    /// Whether ending is defined after the block decryptor has replied with
    /// `plain`.
    pub fn can_end_after(&self, plain: &[u8]) -> (res: bool)
        ensures
            res == self@.inner.push(plain@).0.can_end(),
    {
        self.inner.can_end_after(plain)
    }
}

} // verus!
