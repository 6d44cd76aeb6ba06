//! A verified codec for legacy Bitcoin-style transactions.
//!
//! The crate models a transaction as structured data (`LegacyTransaction`
//! with its inputs and outputs), encodes it into the canonical little-endian,
//! varint-prefixed wire form, and decodes such byte buffers back, rejecting
//! every malformed input with a typed error.  Encoding and decoding are
//! proved to be mutually inverse, and the encoding is proved canonical.

pub mod cli;
pub mod codec;
pub mod errors;
pub mod laws;
pub mod model;
pub mod types;
pub mod varint;
