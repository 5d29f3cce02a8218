//! Byte-oriented decompression codecs: each maps a compressed block and the
//! size it must expand to onto the expanded bytes.
pub mod dynamic;
pub mod gzip;
pub mod lz4;
pub mod sequences;
pub mod tokens;
pub mod trailer;
pub mod window;
