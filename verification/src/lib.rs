//! Container handling for Olympus / Philips dictation files.

pub mod codec;
pub mod demux;
pub mod error;
pub mod pieces;
pub mod streaming;
pub mod text;
