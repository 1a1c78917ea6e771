//! Decoding while the bytes arrive.

pub mod byte_laws;
pub mod decoder;
pub mod decoder_laws;
pub mod decrypt;
pub mod decrypting;
pub mod decrypting_laws;

pub use decoder::{DecodeStep, StreamingDecoder};
pub use decrypt::{DecryptMode, DecryptStep, DecryptStreamer};
pub use decrypting::{DecryptingDecoderStreamer, StreamStep};
