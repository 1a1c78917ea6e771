//! The parts of the codecs that work on whole numbers.

pub mod qp;
pub mod qp_fields;
