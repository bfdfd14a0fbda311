//! A verified implementation of an LC-LZ2-style byte-stream codec, as used by
//! a family of 16-bit console games.
//!
//! The codec is a pair of pure functions over byte buffers: [`compress`] turns
//! an arbitrary byte sequence into a compact command stream terminated by a
//! stop byte, and [`decompress`] interprets such a stream back into bytes.
//! The wire format and the meaning of every block live in [`block`]; the
//! central guarantee, stated on `compress` itself, is that decoding its
//! output yields exactly the original input.

pub mod block;
pub mod compress;
pub mod decompress;

pub use compress::compress;
pub use decompress::decompress;
pub use decompress::DecompressionError;
