//! Byte-level wire encodings.

pub mod bytes;
pub mod multiplex;
pub mod varint;
pub mod parse;
