//! Telling plain from encrypted input while the bytes arrive.
//!
//! Deciphering itself is the business of a block decryptor outside this crate.
//! The streamer says what is to be handed to it, and is told how its first
//! piece went.

use crate::demux::container::{is_ds2, starts_as_ds2};
use crate::demux::format::{is_dss, starts_as_dss};
use crate::error::{DecodeError, ErrorModel};
use crate::pieces::joined;
use vstd::prelude::*;
use vstd::slice::slice_to_vec;

verus! {

/// The magic number of a plain DS2 or DSS file.
pub open spec fn is_plain(bytes: Seq<u8>) -> bool {
    is_ds2(bytes) || is_dss(bytes)
}

/// Whether the bytes begin like a plain DS2 or DSS file.
pub fn is_plain_prefix(bytes: &[u8]) -> (res: bool)
    ensures
        res == is_plain(bytes@),
{
    starts_as_ds2(bytes) || starts_as_dss(bytes)
}

/// Whether `bytes` begins with `prefix`.
pub open spec fn begins_with(bytes: Seq<u8>, prefix: Seq<u8>) -> bool {
    prefix.len() <= bytes.len() && bytes.take(prefix.len() as int) == prefix
}

/// Whether `bytes` begins with `prefix`.
fn starts_with(bytes: &[u8], prefix: &[u8]) -> (res: bool)
    ensures
        res == begins_with(bytes@, prefix@),
{
    if bytes.len() < prefix.len() {
        return false;
    }
    let mut i: usize = 0;
    while i < prefix.len()
        invariant
            prefix@.len() <= bytes@.len(),
            i <= prefix@.len(),
            bytes@.take(i as int) == prefix@.take(i as int),
        decreases prefix@.len() - i,
    {
        if bytes[i] != prefix[i] {
            assert(bytes@.take(prefix@.len() as int)[i as int] != prefix@[i as int]);
            return false;
        }
        i += 1;
        assert(bytes@.take(i as int) =~= prefix@.take(i as int));
    }
    assert(prefix@.take(i as int) =~= prefix@);
    true
}

/// What is known of the input.
#[derive(Debug, Clone, Copy, PartialEq, Eq, Structural)]
pub enum DecryptMode {
    /// Too few bytes have arrived.
    Unknown,
    /// The input is plain.
    PassThrough,
    /// The input is encrypted, and a block decryptor is at work.
    Encrypted,
}

/// What is to be done with bytes that have arrived.
#[derive(Debug, Clone, PartialEq, Eq)]
pub enum DecryptStep {
    /// These bytes are plain.
    Plain(Vec<u8>),
    /// A block decryptor is to be made for the password and to be given the
    /// bytes; [`DecryptStreamer::opened`] wants to know what it made of them.
    Open {
        password: Vec<u8>,
        bytes: Vec<u8>,
    },
    /// The block decryptor is to be given these bytes.
    Cipher(Vec<u8>),
    /// The block decryptor is to be finished.
    CipherEnd,
}

/// The mathematical value of a [`DecryptStep`].
pub enum DecryptStepModel {
    Plain(Seq<u8>),
    Open { password: Seq<u8>, bytes: Seq<u8> },
    Cipher(Seq<u8>),
    CipherEnd,
}

impl View for DecryptStep {
    type V = DecryptStepModel;

    open spec fn view(&self) -> DecryptStepModel {
        match self {
            DecryptStep::Plain(bytes) => DecryptStepModel::Plain(bytes@),
            DecryptStep::Open { password, bytes } => DecryptStepModel::Open {
                password: password@,
                bytes: bytes@,
            },
            DecryptStep::Cipher(bytes) => DecryptStepModel::Cipher(bytes@),
            DecryptStep::CipherEnd => DecryptStepModel::CipherEnd,
        }
    }
}

/// The state of a [`DecryptStreamer`].
pub struct DecryptState {
    /// The password, if there is one.
    pub password: Option<Seq<u8>>,
    /// The magic number of an encrypted file.
    pub magic: Seq<u8>,
    /// The bytes that have arrived while too little was known.
    pub prebuffer: Seq<u8>,
    /// What is known of the input.
    pub mode: DecryptMode,
}

impl DecryptState {
    /// The state before the first byte.
    pub open spec fn start(password: Option<Seq<u8>>, magic: Seq<u8>) -> DecryptState {
        DecryptState { password, magic, prebuffer: Seq::empty(), mode: DecryptMode::Unknown }
    }

    /// More bytes arrive. The first four tell whether the input is encrypted,
    /// plain or neither.
    pub open spec fn push(self, bytes: Seq<u8>) -> (
        DecryptState,
        Result<DecryptStepModel, ErrorModel>,
    ) {
        let seen = self.prebuffer + bytes;
        let kept = DecryptState { prebuffer: seen, ..self };
        let emptied = DecryptState { prebuffer: Seq::empty(), ..self };
        match self.mode {
            DecryptMode::PassThrough => (self, Ok(DecryptStepModel::Plain(bytes))),
            DecryptMode::Encrypted => (self, Ok(DecryptStepModel::Cipher(bytes))),
            DecryptMode::Unknown => if seen.len() < 4 {
                (kept, Ok(DecryptStepModel::Plain(Seq::empty())))
            } else if begins_with(seen, self.magic) {
                match self.password {
                    None => (
                        kept,
                        Err(
                            ErrorModel::EncryptedDs2(
                                "password required for encrypted DS2 input"@,
                            ),
                        ),
                    ),
                    Some(password) => (
                        emptied,
                        Ok(DecryptStepModel::Open { password, bytes: seen }),
                    ),
                }
            } else if is_plain(seen) {
                (
                    DecryptState { mode: DecryptMode::PassThrough, ..emptied },
                    Ok(DecryptStepModel::Plain(seen)),
                )
            } else {
                (kept, Err(ErrorModel::UnsupportedFormat(seen[0])))
            },
        }
    }

    /// The block decryptor has been given its first bytes. Only if it took them
    /// the input counts as encrypted.
    pub open spec fn opened(self, taken: bool) -> DecryptState {
        if taken {
            DecryptState { mode: DecryptMode::Encrypted, ..self }
        } else {
            self
        }
    }

    /// The bytes end here.
    pub open spec fn finish(self) -> (DecryptState, Result<DecryptStepModel, ErrorModel>) {
        let emptied = DecryptState { prebuffer: Seq::empty(), ..self };
        match self.mode {
            DecryptMode::PassThrough => (emptied, Ok(DecryptStepModel::Plain(self.prebuffer))),
            DecryptMode::Encrypted => (self, Ok(DecryptStepModel::CipherEnd)),
            DecryptMode::Unknown => if self.prebuffer.len() == 0 {
                (self, Ok(DecryptStepModel::Plain(Seq::empty())))
            } else if begins_with(self.magic, self.prebuffer) {
                (self, Err(ErrorModel::Truncated("encrypted DS2 header"@)))
            } else if self.prebuffer.len() >= 4 && !is_plain(self.prebuffer) {
                (self, Err(ErrorModel::UnsupportedFormat(self.prebuffer[0])))
            } else {
                (emptied, Ok(DecryptStepModel::Plain(self.prebuffer)))
            },
        }
    }
}

/// Passes plain input through and directs encrypted input to a block decryptor.
pub struct DecryptStreamer {
    password: Option<Vec<u8>>,
    magic: Vec<u8>,
    prebuffer: Vec<u8>,
    mode: DecryptMode,
}

impl View for DecryptStreamer {
    type V = DecryptState;

    closed spec fn view(&self) -> DecryptState {
        DecryptState {
            password: match self.password {
                Some(password) => Some(password@),
                None => None,
            },
            magic: self.magic@,
            prebuffer: self.prebuffer@,
            mode: self.mode,
        }
    }
}

impl DecryptStreamer {
    /// A streamer that has seen no bytes. `encrypted_magic` is the magic number
    /// of the files that the block decryptor understands.
    pub fn new(password: Option<&[u8]>, encrypted_magic: &[u8]) -> (streamer: Self)
        ensures
            streamer@ == DecryptState::start(
                match password {
                    Some(value) => Some(value@),
                    None => None,
                },
                encrypted_magic@,
            ),
    {
        let password: Option<Vec<u8>> = match password {
            Some(value) => Some(slice_to_vec(value)),
            None => None,
        };
        DecryptStreamer {
            password,
            magic: slice_to_vec(encrypted_magic),
            prebuffer: Vec::new(),
            mode: DecryptMode::Unknown,
        }
    }

    /// Empties the buffer.
    fn take_prebuffer(&mut self) -> (bytes: Vec<u8>)
        ensures
            bytes@ == old(self)@.prebuffer,
            final(self)@ == (DecryptState { prebuffer: Seq::empty(), ..old(self)@ }),
    {
        let mut bytes: Vec<u8> = Vec::new();
        std::mem::swap(&mut bytes, &mut self.prebuffer);
        bytes
    }

    /// How many bytes are kept because too little is known.
    pub fn buffered(&self) -> (n: usize)
        ensures
            n == self@.prebuffer.len(),
    {
        self.prebuffer.len()
    }

    /// Takes more bytes and says what is to be done with them.
    pub fn push(&mut self, bytes: &[u8]) -> (res: Result<DecryptStep, DecodeError>)
        ensures
            final(self)@ == old(self)@.push(bytes@).0,
            match old(self)@.push(bytes@).1 {
                Ok(step) => res is Ok && res->Ok_0@ == step,
                Err(error) => res is Err && res->Err_0@ == error,
            },
    {
        match self.mode {
            DecryptMode::PassThrough => Ok(DecryptStep::Plain(slice_to_vec(bytes))),
            DecryptMode::Encrypted => Ok(DecryptStep::Cipher(slice_to_vec(bytes))),
            DecryptMode::Unknown => {
                self.prebuffer.extend_from_slice(bytes);
                assert(self.prebuffer@ =~= old(self)@.prebuffer + bytes@);
                if self.prebuffer.len() < 4 {
                    return Ok(DecryptStep::Plain(Vec::new()));
                }
                if starts_with(self.prebuffer.as_slice(), self.magic.as_slice()) {
                    let password: Vec<u8> = match &self.password {
                        None => {
                            return Err(
                                DecodeError::EncryptedDs2(
                                    "password required for encrypted DS2 input".to_string(),
                                ),
                            );
                        },
                        Some(password) => slice_to_vec(password.as_slice()),
                    };
                    let buffered = self.take_prebuffer();
                    return Ok(DecryptStep::Open { password, bytes: buffered });
                }
                if is_plain_prefix(self.prebuffer.as_slice()) {
                    let buffered = self.take_prebuffer();
                    self.mode = DecryptMode::PassThrough;
                    return Ok(DecryptStep::Plain(buffered));
                }
                Err(DecodeError::UnsupportedFormat(self.prebuffer[0]))
            },
        }
    }

    /// Reports what a new block decryptor made of its first bytes, and hands
    /// that on.
    pub fn opened(&mut self, reply: Result<Vec<u8>, DecodeError>) -> (res: Result<
        Vec<u8>,
        DecodeError,
    >)
        ensures
            res == reply,
            final(self)@ == old(self)@.opened(reply is Ok),
    {
        if reply.is_ok() {
            self.mode = DecryptMode::Encrypted;
        }
        reply
    }

    /// What is left to be done if the input ends here.
    pub fn ending(&self) -> (res: Result<DecryptStep, DecodeError>)
        ensures
            match self@.finish().1 {
                Ok(step) => res is Ok && res->Ok_0@ == step,
                Err(error) => res is Err && res->Err_0@ == error,
            },
    {
        match self.mode {
            DecryptMode::PassThrough => Ok(
                DecryptStep::Plain(slice_to_vec(self.prebuffer.as_slice())),
            ),
            DecryptMode::Encrypted => Ok(DecryptStep::CipherEnd),
            DecryptMode::Unknown => {
                if self.prebuffer.is_empty() {
                    return Ok(DecryptStep::Plain(Vec::new()));
                }
                if starts_with(self.magic.as_slice(), self.prebuffer.as_slice()) {
                    return Err(DecodeError::Truncated("encrypted DS2 header".to_string()));
                }
                if self.prebuffer.len() >= 4 && !is_plain_prefix(self.prebuffer.as_slice()) {
                    return Err(DecodeError::UnsupportedFormat(self.prebuffer[0]));
                }
                Ok(DecryptStep::Plain(slice_to_vec(self.prebuffer.as_slice())))
            },
        }
    }

    /// Ends the input and says what is left to be done.
    pub fn finish(&mut self) -> (res: Result<DecryptStep, DecodeError>)
        ensures
            final(self)@ == old(self)@.finish().0,
            match old(self)@.finish().1 {
                Ok(step) => res is Ok && res->Ok_0@ == step,
                Err(error) => res is Err && res->Err_0@ == error,
            },
    {
        let res = self.ending();
        match &res {
            Ok(DecryptStep::Plain(_)) => {
                self.prebuffer.clear();
                assert(self@.prebuffer =~= old(self)@.finish().0.prebuffer);
            },
            _ => {},
        }
        res
    }
}

/// The state after bytes have arrived piece by piece, and the plain bytes that
/// came out; `None` if something else than plain bytes came out.
pub open spec fn passed(s: DecryptState, pieces: Seq<Seq<u8>>) -> Option<(DecryptState, Seq<u8>)>
    decreases pieces.len(),
{
    if pieces.len() == 0 {
        Some((s, Seq::empty()))
    } else {
        match passed(s, pieces.drop_last()) {
            None => None,
            Some((mid, out)) => match mid.push(pieces.last()).1 {
                Ok(DecryptStepModel::Plain(bytes)) => Some(
                    (mid.push(pieces.last()).0, out + bytes),
                ),
                _ => None,
            },
        }
    }
}

/// A plain file in the making: fewer than four bytes, or a plain magic number.
pub open spec fn plain_so_far(bytes: Seq<u8>, magic: Seq<u8>) -> bool {
    bytes.len() < 4 || is_plain(bytes) && !begins_with(bytes, magic)
}

/// What the streamer has done with the pieces of a plain file.
pub proof fn lemma_passed(password: Option<Seq<u8>>, magic: Seq<u8>, pieces: Seq<Seq<u8>>)
    requires
        plain_so_far(joined(pieces), magic),
    ensures
        ({
            let start = DecryptState::start(password, magic);
            let all = joined(pieces);
            passed(start, pieces) == if all.len() < 4 {
                Some((DecryptState { prebuffer: all, ..start }, Seq::empty()))
            } else {
                Some((DecryptState { mode: DecryptMode::PassThrough, ..start }, all))
            }
        }),
    decreases pieces.len(),
{
    let start = DecryptState::start(password, magic);
    if pieces.len() > 0 {
        let before = joined(pieces.drop_last());
        let all = joined(pieces);
        if before.len() >= 4 && begins_with(before, magic) {
            assert(all.take(magic.len() as int) =~= before.take(magic.len() as int));
        }
        lemma_passed(password, magic, pieces.drop_last());
        assert(Seq::<u8>::empty() + Seq::<u8>::empty() =~= Seq::<u8>::empty());
        assert(Seq::<u8>::empty() + all =~= all);
    }
}

/// A plain file comes out as it went in, in whatever pieces it arrives.
pub proof fn law_plain_input_passes_through(
    password: Option<Seq<u8>>,
    magic: Seq<u8>,
    pieces: Seq<Seq<u8>>,
)
    requires
        is_plain(joined(pieces)),
        !begins_with(joined(pieces), magic),
    ensures
        passed(DecryptState::start(password, magic), pieces) matches Some((s, out)) && s.finish().1
            matches Ok(DecryptStepModel::Plain(rest)) && out + rest == joined(pieces),
{
    lemma_passed(password, magic, pieces);
    assert(joined(pieces) + Seq::<u8>::empty() =~= joined(pieces));
}

/// The state after bytes have arrived piece by piece, whatever came out.
pub open spec fn pushed(s: DecryptState, pieces: Seq<Seq<u8>>) -> DecryptState
    decreases pieces.len(),
{
    if pieces.len() == 0 {
        s
    } else {
        pushed(s, pieces.drop_last()).push(pieces.last()).0
    }
}

/// Whether bytes may be the beginning of an encrypted file: fewer than four, or
/// as much of the magic number as there are.
pub open spec fn may_be_encrypted(bytes: Seq<u8>, magic: Seq<u8>) -> bool {
    bytes.len() < 4 || begins_with(bytes, magic) || begins_with(magic, bytes)
}

/// Fewer bytes may be the beginning of an encrypted file too.
proof fn lemma_may_be_encrypted(before: Seq<u8>, piece: Seq<u8>, magic: Seq<u8>)
    requires
        may_be_encrypted(before + piece, magic),
    ensures
        may_be_encrypted(before, magic),
{
    let all = before + piece;
    if before.len() >= 4 {
        if begins_with(all, magic) {
            if magic.len() <= before.len() {
                assert(before.take(magic.len() as int) =~= all.take(magic.len() as int));
            } else {
                assert(magic.take(before.len() as int) =~= before) by {
                    assert(magic =~= all.take(magic.len() as int));
                }
            }
        } else {
            assert(magic.take(before.len() as int) =~= before) by {
                assert(magic.take(all.len() as int) =~= all);
                assert(magic.take(before.len() as int) =~= magic.take(all.len() as int).take(
                    before.len() as int,
                ));
            }
        }
    }
}

/// Where the magic number of encrypted files is not also that of plain ones, no
/// part of it of at least four bytes is.
proof fn lemma_not_plain(bytes: Seq<u8>, magic: Seq<u8>)
    requires
        may_be_encrypted(bytes, magic),
        !begins_with(bytes, magic),
        bytes.len() >= 4,
        magic.len() > 4 ==> !is_plain(magic),
    ensures
        !is_plain(bytes),
{
    assert(bytes.len() < magic.len()) by {
        if bytes.len() == magic.len() {
            assert(magic.take(bytes.len() as int) =~= magic);
            assert(bytes.take(magic.len() as int) =~= bytes);
        }
    }
    assert(forall|i: int|
        0 <= i < 4 ==> bytes[i] == #[trigger] magic.take(bytes.len() as int)[i]);
    assert(bytes[0] == magic[0] && bytes[1] == magic[1] && bytes[2] == magic[2] && bytes[3]
        == magic[3]);
}

/// Without a password the bytes of an encrypted file are only kept.
proof fn lemma_refused(magic: Seq<u8>, pieces: Seq<Seq<u8>>)
    requires
        magic.len() > 4 ==> !is_plain(magic),
        may_be_encrypted(joined(pieces), magic),
    ensures
        pushed(DecryptState::start(None, magic), pieces) == (DecryptState {
            prebuffer: joined(pieces),
            ..DecryptState::start(None, magic)
        }),
    decreases pieces.len(),
{
    if pieces.len() > 0 {
        let all = joined(pieces);
        lemma_may_be_encrypted(joined(pieces.drop_last()), pieces.last(), magic);
        lemma_refused(magic, pieces.drop_last());
        if all.len() >= 4 && !begins_with(all, magic) {
            lemma_not_plain(all, magic);
        }
    }
}

/// Without a password no byte of an encrypted file comes out: from the piece on
/// that brings the fourth byte every piece is refused, for want of a password if
/// the magic number is complete, and as unknown before. A magic number of more
/// than four bytes must not begin like that of a plain file.
pub proof fn law_encrypted_input_needs_password(
    magic: Seq<u8>,
    pieces: Seq<Seq<u8>>,
    piece: Seq<u8>,
)
    requires
        magic.len() > 4 ==> !is_plain(magic),
        may_be_encrypted(joined(pieces) + piece, magic),
    ensures
        ({
            let all = joined(pieces) + piece;
            pushed(DecryptState::start(None, magic), pieces).push(piece).1 == if all.len() < 4 {
                Ok::<DecryptStepModel, ErrorModel>(DecryptStepModel::Plain(Seq::empty()))
            } else if begins_with(all, magic) {
                Err(ErrorModel::EncryptedDs2("password required for encrypted DS2 input"@))
            } else {
                Err(ErrorModel::UnsupportedFormat(all[0]))
            }
        }),
{
    let all = joined(pieces) + piece;
    lemma_may_be_encrypted(joined(pieces), piece, magic);
    lemma_refused(magic, pieces);
    if all.len() >= 4 && !begins_with(all, magic) {
        lemma_not_plain(all, magic);
    }
}

/// Whether no piece leaves off within the magic number behind its fourth byte,
/// where a file cannot be told yet and is refused.
pub open spec fn magic_in_one(pieces: Seq<Seq<u8>>, magic: Seq<u8>) -> bool
    decreases pieces.len(),
{
    pieces.len() == 0 || {
        &&& magic_in_one(pieces.drop_last(), magic)
        &&& !(4 <= joined(pieces).len() < magic.len())
    }
}

/// Whether bytes are fewer than four or begin with the magic number.
pub open spec fn encrypted_so_far(bytes: Seq<u8>, magic: Seq<u8>) -> bool {
    bytes.len() < 4 || begins_with(bytes, magic)
}

/// What holds of the pieces of an encrypted file holds without the last one.
pub proof fn lemma_encrypted_pieces(pieces: Seq<Seq<u8>>, magic: Seq<u8>)
    requires
        pieces.len() > 0,
        magic_in_one(pieces, magic),
        encrypted_so_far(joined(pieces), magic),
    ensures
        magic_in_one(pieces.drop_last(), magic),
        encrypted_so_far(joined(pieces.drop_last()), magic),
{
    let fewer = pieces.drop_last();
    let before = joined(fewer);
    if before.len() >= 4 {
        assert(fewer.len() > 0 && magic_in_one(fewer, magic));
        assert(before.take(magic.len() as int) =~= joined(pieces).take(magic.len() as int));
    }
}

/// The state after the bytes of an encrypted file have arrived piece by piece
/// with the block decryptor taking everything, and what it has been given;
/// `None` if something else was to be done.
pub open spec fn directed(s: DecryptState, password: Seq<u8>, pieces: Seq<Seq<u8>>) -> Option<
    (DecryptState, Seq<u8>),
>
    decreases pieces.len(),
{
    if pieces.len() == 0 {
        Some((s, Seq::empty()))
    } else {
        match directed(s, password, pieces.drop_last()) {
            None => None,
            Some((mid, given)) => {
                let (end, step) = mid.push(pieces.last());
                match step {
                    Ok(DecryptStepModel::Plain(bytes)) => if bytes.len() == 0 {
                        Some((end, given))
                    } else {
                        None
                    },
                    Ok(DecryptStepModel::Open { password: p, bytes }) => if p == password {
                        Some((end.opened(true), given + bytes))
                    } else {
                        None
                    },
                    Ok(DecryptStepModel::Cipher(bytes)) => Some((end, given + bytes)),
                    _ => None,
                }
            },
        }
    }
}

/// What the streamer has done with the pieces of an encrypted file.
proof fn lemma_directed(password: Seq<u8>, magic: Seq<u8>, pieces: Seq<Seq<u8>>)
    requires
        magic_in_one(pieces, magic),
        encrypted_so_far(joined(pieces), magic),
    ensures
        ({
            let start = DecryptState::start(Some(password), magic);
            let all = joined(pieces);
            directed(start, password, pieces) == if all.len() < 4 {
                Some((DecryptState { prebuffer: all, ..start }, Seq::empty()))
            } else {
                Some((DecryptState { mode: DecryptMode::Encrypted, ..start }, all))
            }
        }),
    decreases pieces.len(),
{
    if pieces.len() > 0 {
        let all = joined(pieces);
        lemma_encrypted_pieces(pieces, magic);
        lemma_directed(password, magic, pieces.drop_last());
        assert(Seq::<u8>::empty() + all =~= all);
    }
}

/// With a password every byte of an encrypted file reaches the block decryptor
/// for that password, in order, and then it is finished. The file may arrive in
/// any pieces that do not leave off within the magic number behind its fourth
/// byte.
pub proof fn law_encrypted_input_reaches_the_decryptor(
    password: Seq<u8>,
    magic: Seq<u8>,
    pieces: Seq<Seq<u8>>,
)
    requires
        magic_in_one(pieces, magic),
        joined(pieces).len() >= 4,
        begins_with(joined(pieces), magic),
    ensures
        directed(DecryptState::start(Some(password), magic), password, pieces) matches Some(
            (s, given),
        ) && given == joined(pieces) && s.finish().1 == Ok::<DecryptStepModel, ErrorModel>(
            DecryptStepModel::CipherEnd,
        ),
{
    lemma_directed(password, magic, pieces);
}

} // verus!
