//! Schema-driven bit-level codec for a compressed-image container's
//! metadata section.
//!
//! The crate is organised around a bit-granular reader over an in-memory
//! byte source ([`bitstream::BitReader`]), a closed set of primitive
//! bit-codecs ([`bitstream::types`]), a declarative field-schema engine
//! ([`schema`]), and the concrete image-dimension header decoder
//! ([`decoder`]).  Every contract is stated over the bit-stream model in
//! [`bitmath`].

pub mod bitmath;
pub mod bitstream;
pub mod decoder;
pub mod error;
pub mod schema;
pub mod utils;
