//! The MessagePack codec: the format's grammar, a decoder and an encoder
//! proved against it, and the laws that tie them together.

pub mod decode;
pub mod encode;
pub mod format;
pub mod laws;

pub use decode::{decode, decode_value, DecodeError};
pub use encode::encode;
