//! Demultiplexing: from the bytes of a file to the frames inside.

pub mod container;
pub mod container_laws;
pub mod ds2;
pub mod format;
pub mod qp;
pub mod qp7;
pub mod qp7_laws;
pub mod qp_laws;
pub mod sp;
pub mod sp_byte_laws;
pub mod sp_laws;
pub mod sp_stream;
pub mod value_laws;

pub use format::{detect_format, AudioFormat, DemuxResult, FrameData};
