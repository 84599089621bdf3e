//! A compact binary wire codec: a typed value model, two integer-encoding
//! profiles, and a verified encoder/decoder pair.
pub mod decoder;
pub mod encoder;
pub mod laws;
pub mod model;
pub mod profile;

pub use decoder::decode;
pub use encoder::{encode, encode_into};
pub use model::{Shape, Value};
pub use profile::{DecodeError, Profile};
