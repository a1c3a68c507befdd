//! The PNG decoder: a byte reader over the file, chunk parsing, the
//! IHDR header, the reversal of scanline filtering, a bit reader, and
//! laws over well-formed chunk streams.
pub mod reader;
pub mod chunk;
pub mod filter;
pub mod decoder;
pub mod bits;
pub mod stream;
