//! A small codec layer for persisted storage values: byte sequences carried as
//! prefix-tagged hexadecimal strings, and non-negative arbitrary-precision
//! integers carried as exact decimal numbers.

pub mod codec;
pub mod hex_bytes;
pub mod stored;
