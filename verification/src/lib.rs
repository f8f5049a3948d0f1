//! Lossless codec for audio-fingerprint streams: sequences of 32-bit
//! sub-fingerprints are delta-encoded into small bit-distance "spans"
//! (with 5-bit overflow "extensions"), packed into a dense byte layout,
//! and decoded back bit-for-bit.

pub mod bits;
pub mod pack;
pub mod compress;
pub mod decompress;
pub mod roundtrip;

pub use compress::compress_fingerprint;
pub use decompress::decompress_fingerprint;
pub use decompress::DecompressError;
pub use pack::{pack3, pack3_size, pack5, pack5_size, unpack3, unpack5};
