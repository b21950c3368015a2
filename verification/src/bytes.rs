//! Little-endian encodings.
use byteorder::{LittleEndian, WriteBytesExt};
use vstd::prelude::*;

verus! {

/// The two bytes of `n`, least significant first.
pub open spec fn u16_le(n: u16) -> Seq<u8> {
    seq![(n % 256) as u8, (n / 256) as u8]
}

/// The four bytes of `n`, least significant first.
pub open spec fn u32_le(n: u32) -> Seq<u8> {
    seq![
        (n % 256) as u8,
        (n / 0x100 % 256) as u8,
        (n / 0x1_0000 % 256) as u8,
        (n / 0x100_0000) as u8,
    ]
}

/// The eight bytes of `n`, least significant first.
pub open spec fn u64_le(n: u64) -> Seq<u8> {
    u32_le((n % 0x1_0000_0000) as u32) + u32_le((n / 0x1_0000_0000) as u32)
}

/// Calls `byteorder::WriteBytesExt::write_u16` for `LittleEndian` on a vector:
/// the two bytes of `n` are appended, least significant first. Writing to a
/// vector does not fail.
#[verifier::external_body]
pub(crate) fn write_u16_le(out: &mut Vec<u8>, n: u16)
    ensures
        final(out)@ == old(out)@ + u16_le(n),
{
    out.write_u16::<LittleEndian>(n).unwrap()
}

/// Calls `byteorder::WriteBytesExt::write_u32` for `LittleEndian` on a vector:
/// the four bytes of `n` are appended, least significant first. Writing to a
/// vector does not fail.
#[verifier::external_body]
pub(crate) fn write_u32_le(out: &mut Vec<u8>, n: u32)
    ensures
        final(out)@ == old(out)@ + u32_le(n),
{
    out.write_u32::<LittleEndian>(n).unwrap()
}

/// Calls `byteorder::WriteBytesExt::write_u64` for `LittleEndian` on a vector:
/// the eight bytes of `n` are appended, least significant first. Writing to a
/// vector does not fail.
#[verifier::external_body]
pub(crate) fn write_u64_le(out: &mut Vec<u8>, n: u64)
    ensures
        final(out)@ == old(out)@ + u64_le(n),
{
    out.write_u64::<LittleEndian>(n).unwrap()
}

} // verus!
