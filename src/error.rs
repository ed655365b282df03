use vstd::prelude::*;

verus! {

/// Everything that can go wrong while reading a header or decoding a stream.
#[derive(Debug, Clone, Copy, PartialEq, Eq, Structural)]
pub enum Error {
    /// The input ended before the 13-byte header was read.
    HeaderTooShort,
    /// The properties byte is not below 225.
    InvalidHeader { invalid_properties: u32 },
    /// `1 << (lc + lp)` literal slots do not fit in the probability storage.
    ProbabilitiesBufferTooSmall { needed: usize, available: usize },
    /// The end-of-stream marker was decoded but input bytes remain.
    EosFoundButMoreBytesAvailable,
    /// The stream ended with a byte count other than the announced one.
    ProcessedDataDoesNotMatchUnpackedSize { unpacked_size: u64, decompressed_data: usize },
    /// A back-reference reaches before the start of the output or beyond the dictionary.
    InvalidBackReference { distance: usize, available: usize },
    /// The input ended in the middle of a packet.
    UnexpectedEof,
}

} // verus!
