//! The wire format: byte-level helpers, the specification of every encoding,
//! and the executable encoders and decoders.

pub mod bytes;
pub mod wire;
pub mod laws;
pub mod encode;
pub mod reader;
pub mod decode;
