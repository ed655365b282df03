//! Core of an LZMA decompressor: the range decoder, the adaptive bit-tree and
//! length decoders, the output window and the packet state machine with its
//! chunked streaming driver.
pub mod endian;
pub mod error;
pub mod lzbuffer;
pub mod lzma;
pub mod rangecoder;
