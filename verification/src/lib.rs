//! Least-significant-bit steganography over flat byte buffers.
//!
//! A secret byte stream is cut into chunks of one to eight bits, and each
//! chunk replaces the low bits of one byte of a cover image. The secret is
//! right-aligned: the image bytes before it carry all-zero chunks, and
//! extraction starts at the first byte whose low bits are not zero.

pub mod errors;
pub mod utils;
pub mod encoder;
pub mod decoder;
pub mod laws;
