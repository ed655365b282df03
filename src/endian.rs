use vstd::prelude::*;

verus! {

/// The integer whose big-endian encoding is the first four bytes of `b`.
pub open spec fn be_u32_value(b: Seq<u8>) -> int {
    b[0] * 0x100_0000 + b[1] * 0x1_0000 + b[2] * 0x100 + b[3]
}

/// The integer whose little-endian encoding is the first four bytes of `b`.
pub open spec fn le_u32_value(b: Seq<u8>) -> int {
    b[0] + b[1] * 0x100 + b[2] * 0x1_0000 + b[3] * 0x100_0000
}

/// The integer whose little-endian encoding is the first eight bytes of `b`.
pub open spec fn le_u64_value(b: Seq<u8>) -> int {
    le_u32_value(b) + le_u32_value(b.subrange(4, 8)) * 0x1_0000_0000
}

/// Relies on byteorder's `BigEndian::read_u32`: the first four bytes, most
/// significant first.
#[verifier::external_body]
pub(crate) fn read_be_u32(b: &[u8]) -> (r: u32)
    requires
        b@.len() >= 4,
    ensures
        r as int == be_u32_value(b@),
{
    <byteorder::BigEndian as byteorder::ByteOrder>::read_u32(b)
}

/// Relies on byteorder's `LittleEndian::read_u32`: the first four bytes,
/// least significant first.
#[verifier::external_body]
pub(crate) fn read_le_u32(b: &[u8]) -> (r: u32)
    requires
        b@.len() >= 4,
    ensures
        r as int == le_u32_value(b@),
{
    <byteorder::LittleEndian as byteorder::ByteOrder>::read_u32(b)
}

/// Relies on byteorder's `LittleEndian::read_u64`: the first eight bytes,
/// least significant first.
#[verifier::external_body]
pub(crate) fn read_le_u64(b: &[u8]) -> (r: u64)
    requires
        b@.len() >= 8,
    ensures
        r as int == le_u64_value(b@),
{
    <byteorder::LittleEndian as byteorder::ByteOrder>::read_u64(b)
}

} // verus!
