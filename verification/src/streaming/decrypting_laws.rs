//! What holds of decoding plain and encrypted input as a whole.

use super::decoder::{DecoderState, StepModel};
use super::decoder_laws::{
    accounts_for, decode_all, known_so_far, law_every_byte_counts_once,
    law_known_file_is_accepted, with_step, Outcome,
};
use super::decrypt::{
    begins_with, encrypted_so_far, is_plain, lemma_encrypted_pieces, lemma_passed, magic_in_one,
    passed, plain_so_far, DecryptMode, DecryptState, DecryptStepModel,
};
use super::decrypting::{DecryptingState, StreamStepModel};
use crate::demux::sp_laws::law_sp_push_in_pieces;
use crate::demux::sp_stream::SpStream;
use crate::error::ErrorModel;
use crate::pieces::joined;
use vstd::prelude::*;

verus! {

/// Once the input has been finished, bytes are refused and ending it again does
/// nothing.
pub proof fn law_finished_streamer_is_final(s: DecryptingState, bytes: Seq<u8>, lenient: bool)
    requires
        s.finished,
    ensures
        s.push(bytes) == (s, Err::<StreamStepModel, ErrorModel>(ErrorModel::AlreadyFinished)),
        s.finish(lenient) == (
            s,
            Ok::<StreamStepModel, ErrorModel>(StreamStepModel::Decode(Seq::empty())),
        ),
{
}

/// What comes out when the bytes of a plain file arrive piece by piece, and the
/// state afterwards; `None` if one is refused or to be deciphered.
pub open spec fn stream_all(
    password: Option<Seq<u8>>,
    magic: Seq<u8>,
    pieces: Seq<Seq<u8>>,
) -> Option<(DecryptingState, Outcome)>
    decreases pieces.len(),
{
    if pieces.len() == 0 {
        Some(
            (
                DecryptingState::start(password, magic),
                Outcome {
                    state: DecoderState::start(),
                    packets: Seq::empty(),
                    outside: Seq::empty(),
                },
            ),
        )
    } else {
        match stream_all(password, magic, pieces.drop_last()) {
            None => None,
            Some((before, outcome)) => match before.push(pieces.last()) {
                (state, Ok(StreamStepModel::Decode(steps))) => Some(
                    (state, with_step(outcome, state.inner, steps[0])),
                ),
                _ => None,
            },
        }
    }
}

/// The pieces in which the bytes of a plain file reach the decoder.
spec fn plain_pieces(s: DecryptState, pieces: Seq<Seq<u8>>) -> Seq<Seq<u8>>
    decreases pieces.len(),
{
    if pieces.len() == 0 {
        Seq::empty()
    } else {
        match passed(s, pieces.drop_last()) {
            Some((mid, _)) => match mid.push(pieces.last()).1 {
                Ok(DecryptStepModel::Plain(bytes)) => plain_pieces(s, pieces.drop_last()).push(
                    bytes,
                ),
                _ => Seq::empty(),
            },
            None => Seq::empty(),
        }
    }
}

/// The decoder sees a plain file in other pieces, and does with them what it
/// always does.
proof fn lemma_stream_all(password: Option<Seq<u8>>, magic: Seq<u8>, pieces: Seq<Seq<u8>>)
    requires
        plain_so_far(joined(pieces), magic),
    ensures
        ({
            let start = DecryptState::start(password, magic);
            let plain = plain_pieces(start, pieces);
            &&& passed(start, pieces) is Some
            &&& joined(plain) == passed(start, pieces)->Some_0.1
            &&& stream_all(password, magic, pieces) matches Some((state, outcome)) && {
                &&& !state.finished
                &&& state.decryptor == passed(start, pieces)->Some_0.0
                &&& state.inner == outcome.state
                &&& decode_all(plain) == Some(outcome)
            }
        }),
    decreases pieces.len(),
{
    let start = DecryptState::start(password, magic);
    lemma_passed(password, magic, pieces);
    if pieces.len() > 0 {
        let fewer = pieces.drop_last();
        let before = joined(fewer);
        let all = joined(pieces);
        if before.len() >= 4 && begins_with(before, magic) {
            assert(all.take(magic.len() as int) =~= before.take(magic.len() as int));
        }
        lemma_passed(password, magic, fewer);
        lemma_stream_all(password, magic, fewer);
        let plain = plain_pieces(start, pieces);
        assert(plain.drop_last() =~= plain_pieces(start, fewer));
        law_known_file_is_accepted(plain);
    }
}

/// No piece of a plain file is refused, and it is decoded as if it had gone to
/// the decoder itself, in whatever pieces it arrives: every byte counts once.
pub proof fn law_plain_file_is_decoded(
    password: Option<Seq<u8>>,
    magic: Seq<u8>,
    pieces: Seq<Seq<u8>>,
)
    requires
        is_plain(joined(pieces)),
        !begins_with(joined(pieces), magic),
    ensures
        stream_all(password, magic, pieces) matches Some((state, outcome)) && {
            &&& !state.finished
            &&& state.inner == outcome.state
            &&& state.inner.valid()
            &&& accounts_for(outcome, joined(pieces))
            &&& decode_all(pieces) == Some(outcome)
        },
{
    lemma_stream_all(password, magic, pieces);
    lemma_decodes_alike(password, magic, pieces);
    law_every_byte_counts_once(pieces);
}

/// What has come out of a decoder that has kept these few bytes.
spec fn only_kept(bytes: Seq<u8>) -> Outcome {
    Outcome {
        state: DecoderState { prebuffer: bytes, ..DecoderState::start() },
        packets: Seq::empty(),
        outside: Seq::empty(),
    }
}

/// The first three bytes of a plain file are kept here or there; from the
/// fourth on the decoder has seen the same bytes as on its own.
proof fn lemma_decodes_alike(password: Option<Seq<u8>>, magic: Seq<u8>, pieces: Seq<Seq<u8>>)
    requires
        plain_so_far(joined(pieces), magic),
    ensures
        ({
            let all = joined(pieces);
            &&& stream_all(password, magic, pieces) is Some
            &&& if all.len() < 4 {
                &&& stream_all(password, magic, pieces)->Some_0.1 == only_kept(Seq::empty())
                &&& decode_all(pieces) == Some(only_kept(all))
            } else {
                decode_all(pieces) == Some(stream_all(password, magic, pieces)->Some_0.1)
            }
        }),
    decreases pieces.len(),
{
    lemma_stream_all(password, magic, pieces);
    if pieces.len() > 0 {
        let fewer = pieces.drop_last();
        let before = joined(fewer);
        let all = joined(pieces);
        if before.len() >= 4 && begins_with(before, magic) {
            assert(all.take(magic.len() as int) =~= before.take(magic.len() as int));
        }
        lemma_passed(password, magic, fewer);
        lemma_stream_all(password, magic, fewer);
        lemma_decodes_alike(password, magic, fewer);
        law_known_file_is_accepted(pieces);
        assert(Seq::<u8>::empty() + all =~= all);
        assert(Seq::<u8>::empty() + Seq::<u8>::empty() =~= Seq::<u8>::empty());
    }
}

/// Whether a step adds nothing to what has come out.
pub open spec fn adds_nothing(step: StepModel) -> bool {
    match step {
        StepModel::DssBytes { version: _, bytes } => bytes.len() == 0,
        StepModel::GrundigBytes { header_blocks: _, bytes } => bytes.len() == 0,
        _ => step.is_nothing(),
    }
}

/// Pushing no bytes into a decoder that has taken the bytes of a file changes
/// nothing.
proof fn lemma_push_nothing(outcome: Outcome, file: Seq<u8>)
    requires
        outcome.state.valid(),
        !outcome.state.finished,
        accounts_for(outcome, file),
        known_so_far(file),
    ensures
        outcome.state.push(Seq::empty()).0 == outcome.state,
        outcome.state.push(Seq::empty()).1 matches Ok(step) && adds_nothing(step),
{
    let none = Seq::<u8>::empty();
    assert(outcome.state.prebuffer + none =~= outcome.state.prebuffer);
    assert(outcome.state.raw + none =~= outcome.state.raw);
    if outcome.state.source is Ds2Sp {
        assert(file + none =~= file);
        law_sp_push_in_pieces(SpStream::start(), file, none);
        let packets = SpStream::start().push(file).1;
        let more = SpStream::start().push(file).0.push(none).1;
        assert(packets.len() == (packets + more).len());
    }
}

/// Whether ending the input does what ending the decoder alone does: the same
/// error, or the same last step, and before it at most a step that adds nothing.
pub open spec fn ends_like_decoder(state: DecryptingState, lenient: bool) -> bool {
    let alone = state.inner.finish(lenient).1;
    match state.finish(lenient) {
        (_, Err(error)) => alone == Err::<StepModel, ErrorModel>(error),
        (end, Ok(StreamStepModel::Decode(steps))) => {
            &&& steps.len() == 1
            &&& alone == Ok::<StepModel, ErrorModel>(steps[0])
            &&& end.finished == !steps[0].is_outside()
        },
        (end, Ok(StreamStepModel::DecodeThenFinish(step))) => {
            &&& adds_nothing(step)
            &&& !end.finished
            &&& end.finish_rest(lenient).1 == alone
        },
        _ => false,
    }
}

/// Input that has passed through ends like the decoder, if pushing no bytes
/// into the decoder changes nothing.
proof fn lemma_ends_like_decoder(state: DecryptingState, lenient: bool)
    requires
        !state.finished,
        state.decryptor.mode is PassThrough,
        state.decryptor.prebuffer == Seq::<u8>::empty(),
        state.inner.push(Seq::empty()).0 == state.inner,
        state.inner.push(Seq::empty()).1 matches Ok(step) && adds_nothing(step),
    ensures
        ends_like_decoder(state, lenient),
{
    let none = Seq::<u8>::empty();
    let step = state.inner.push(none).1->Ok_0;
    assert(state.push_plain(none) == (state, Ok::<StepModel, ErrorModel>(step)));
    assert(state.finish(lenient) == state.push_last(none, lenient));
}

/// A plain file ends as it would have ended in the decoder itself: with the same
/// error, or with the same last step, and before it at most a step that adds
/// nothing. If that step is work outside, the last one comes with
/// `finish_rest`.
pub proof fn law_plain_file_ends_the_same(
    password: Option<Seq<u8>>,
    magic: Seq<u8>,
    pieces: Seq<Seq<u8>>,
    lenient: bool,
)
    requires
        is_plain(joined(pieces)),
        !begins_with(joined(pieces), magic),
    ensures
        stream_all(password, magic, pieces) matches Some((state, outcome)) && {
            &&& decode_all(pieces) == Some(outcome)
            &&& state.inner == outcome.state
            &&& ends_like_decoder(state, lenient)
        },
{
    law_plain_file_is_decoded(password, magic, pieces);
    lemma_stream_all(password, magic, pieces);
    lemma_passed(password, magic, pieces);
    let (state, outcome) = stream_all(password, magic, pieces)->Some_0;
    lemma_push_nothing(outcome, joined(pieces));
    lemma_ends_like_decoder(state, lenient);
}

/// The pieces in which the decoder gets the deciphered bytes of an encrypted
/// file, where `replies[i]` is what the block decryptor makes of piece `i`. It
/// is given nothing before the fourth byte is there.
pub open spec fn deciphered(pieces: Seq<Seq<u8>>, replies: Seq<Seq<u8>>) -> Seq<Seq<u8>>
    decreases pieces.len(),
{
    if pieces.len() == 0 {
        Seq::empty()
    } else {
        deciphered(pieces.drop_last(), replies).push(
            if joined(pieces).len() < 4 {
                Seq::empty()
            } else {
                replies[pieces.len() - 1]
            },
        )
    }
}

/// What comes out when the bytes of an encrypted file arrive piece by piece and
/// the block decryptor replies, and the state afterwards; `None` if a piece is
/// refused.
pub open spec fn decipher_all(
    password: Seq<u8>,
    magic: Seq<u8>,
    pieces: Seq<Seq<u8>>,
    replies: Seq<Seq<u8>>,
) -> Option<(DecryptingState, Outcome)>
    decreases pieces.len(),
{
    if pieces.len() == 0 {
        Some(
            (
                DecryptingState::start(Some(password), magic),
                Outcome {
                    state: DecoderState::start(),
                    packets: Seq::empty(),
                    outside: Seq::empty(),
                },
            ),
        )
    } else {
        let reply = Ok::<Seq<u8>, ErrorModel>(replies[pieces.len() - 1]);
        match decipher_all(password, magic, pieces.drop_last(), replies) {
            None => None,
            Some((before, outcome)) => match before.push(pieces.last()) {
                (state, Ok(StreamStepModel::Decode(steps))) => Some(
                    (state, with_step(outcome, state.inner, steps[0])),
                ),
                (mid, Ok(StreamStepModel::Decrypt(step))) => match if step is Open {
                    mid.opened(reply)
                } else {
                    mid.decrypted(reply)
                } {
                    (state, Ok(step)) => Some((state, with_step(outcome, state.inner, step))),
                    _ => None,
                },
                _ => None,
            },
        }
    }
}

/// The decoder sees the deciphered bytes and does with them what it always
/// does.
proof fn lemma_decipher_all(
    password: Seq<u8>,
    magic: Seq<u8>,
    pieces: Seq<Seq<u8>>,
    replies: Seq<Seq<u8>>,
)
    requires
        magic_in_one(pieces, magic),
        encrypted_so_far(joined(pieces), magic),
        known_so_far(joined(deciphered(pieces, replies))),
    ensures
        decipher_all(password, magic, pieces, replies) matches Some((state, outcome)) && {
            let start = DecryptState::start(Some(password), magic);
            let all = joined(pieces);
            &&& !state.finished
            &&& state.decryptor == if all.len() < 4 {
                DecryptState { prebuffer: all, ..start }
            } else {
                DecryptState { mode: DecryptMode::Encrypted, ..start }
            }
            &&& state.inner == outcome.state
            &&& decode_all(deciphered(pieces, replies)) == Some(outcome)
        },
    decreases pieces.len(),
{
    if pieces.len() > 0 {
        let fewer = pieces.drop_last();
        lemma_encrypted_pieces(pieces, magic);
        let plain = deciphered(pieces, replies);
        assert(plain.drop_last() =~= deciphered(fewer, replies));
        assert(joined(plain) == joined(plain.drop_last()) + plain.last());
        lemma_decipher_all(password, magic, fewer, replies);
        law_known_file_is_accepted(plain);
    }
}

/// With a password no piece of an encrypted file is refused if the block
/// decryptor makes the bytes of a DS2 or DSS file of it, and those are decoded
/// as if they had gone to the decoder itself: every byte counts once. The pieces
/// must not leave off within the magic number behind its fourth byte.
pub proof fn law_encrypted_file_is_decoded(
    password: Seq<u8>,
    magic: Seq<u8>,
    pieces: Seq<Seq<u8>>,
    replies: Seq<Seq<u8>>,
)
    requires
        magic_in_one(pieces, magic),
        begins_with(joined(pieces), magic),
        known_so_far(joined(deciphered(pieces, replies))),
    ensures
        decipher_all(password, magic, pieces, replies) matches Some((state, outcome)) && {
            &&& !state.finished
            &&& state.inner == outcome.state
            &&& state.inner.valid()
            &&& accounts_for(outcome, joined(deciphered(pieces, replies)))
            &&& decode_all(deciphered(pieces, replies)) == Some(outcome)
        },
{
    lemma_decipher_all(password, magic, pieces, replies);
    law_every_byte_counts_once(deciphered(pieces, replies));
}

/// The last plain bytes go to the decoder and then it is ended, as if both had
/// been done with the decoder itself: whatever the bytes complete comes out
/// before the end, also where ending fails, and the end gives the same last step
/// or the same error.
pub proof fn law_last_bytes_come_before_the_end(
    s: DecryptingState,
    plain: Seq<u8>,
    lenient: bool,
)
    ensures
        match s.inner.push(plain) {
            (inner, Err(error)) => s.push_last(plain, lenient) == (
                DecryptingState { inner, ..s },
                Err::<StreamStepModel, ErrorModel>(error),
            ),
            (inner, Ok(step)) => {
                let alone = inner.finish(lenient);
                match s.push_last(plain, lenient) {
                    (end, Err(error)) => {
                        &&& step.is_nothing()
                        &&& end.inner == alone.0
                        &&& alone.1 == Err::<StepModel, ErrorModel>(error)
                    },
                    (end, Ok(StreamStepModel::Decode(steps))) => {
                        &&& step.is_nothing()
                        &&& end.inner == alone.0
                        &&& steps.len() == 1
                        &&& alone.1 == Ok::<StepModel, ErrorModel>(steps[0])
                    },
                    (end, Ok(StreamStepModel::DecodeThenFinish(first))) => {
                        &&& first == step
                        &&& end == (DecryptingState { inner, ..s })
                        &&& end.finish_rest(lenient).0.inner == alone.0
                        &&& end.finish_rest(lenient).1 == alone.1
                    },
                    _ => false,
                }
            },
        },
{
}

} // verus!
