//! The errors of the decoder and their mathematical model.

use vstd::prelude::*;

verus! {

/// Everything that can go wrong between the bytes of a file and its frames.
#[derive(Debug, Clone, PartialEq, Eq)]
pub enum DecodeError {
    /// The named input does not start like a DS2 file.
    NotDs2(String),
    /// The input ends inside the part that the text names.
    Truncated(String),
    /// The first byte of an input whose container is not known.
    UnsupportedFormat(u8),
    /// An encrypted input that cannot be opened, with the reason.
    EncryptedDs2(String),
    /// Bytes were pushed after the stream had been finished.
    AlreadyFinished,
}

/// The mathematical value of a [`DecodeError`].
pub enum ErrorModel {
    NotDs2(Seq<char>),
    Truncated(Seq<char>),
    UnsupportedFormat(u8),
    EncryptedDs2(Seq<char>),
    AlreadyFinished,
}

impl View for DecodeError {
    type V = ErrorModel;

    open spec fn view(&self) -> ErrorModel {
        match self {
            DecodeError::NotDs2(name) => ErrorModel::NotDs2(name@),
            DecodeError::Truncated(part) => ErrorModel::Truncated(part@),
            DecodeError::UnsupportedFormat(first) => ErrorModel::UnsupportedFormat(*first),
            DecodeError::EncryptedDs2(reason) => ErrorModel::EncryptedDs2(reason@),
            DecodeError::AlreadyFinished => ErrorModel::AlreadyFinished,
        }
    }
}

} // verus!
