//! Little-endian integers inside byte buffers, read with `byteorder`.

use byteorder::{ByteOrder, LittleEndian};
use vstd::prelude::*;

verus! {

/// The unsigned 16-bit little-endian number stored at `b[at..at + 2]`.
pub open spec fn le_u16(b: Seq<u8>, at: int) -> int {
    b[at] + 256 * b[at + 1]
}

/// The signed (two's complement) 16-bit little-endian number stored at `b[at..at + 2]`.
pub open spec fn le_i16(b: Seq<u8>, at: int) -> int {
    let u = le_u16(b, at);
    if u >= 0x8000 { u - 0x10000 } else { u }
}

/// The unsigned 32-bit little-endian number stored at `b[at..at + 4]`.
pub open spec fn le_u32(b: Seq<u8>, at: int) -> int {
    b[at] + 0x100 * b[at + 1] + 0x1_0000 * b[at + 2] + 0x100_0000 * b[at + 3]
}

/// Reads the `u16` stored little-endian at `buf[at..at + 2]`.
///
/// Trusted: calls `byteorder::LittleEndian::read_u16` on `&buf[at..]`, which
/// decodes its first two bytes with `u16::from_le_bytes` and panics only when
/// fewer than two bytes are given (excluded here by `requires`).
#[verifier::external_body]
pub(crate) fn read_u16_le(buf: &[u8], at: usize) -> (r: u16)
    requires
        at + 2 <= buf@.len(),
    ensures
        r == le_u16(buf@, at as int),
{
    LittleEndian::read_u16(&buf[at..])
}

/// Reads the `i16` stored little-endian at `buf[at..at + 2]`.
///
/// Trusted: calls `byteorder::LittleEndian::read_i16` on `&buf[at..]`, which is
/// `read_u16(buf) as i16`, that is the two's complement reading of the same two
/// bytes; it panics only when fewer than two bytes are given.
#[verifier::external_body]
pub(crate) fn read_i16_le(buf: &[u8], at: usize) -> (r: i16)
    requires
        at + 2 <= buf@.len(),
    ensures
        r == le_i16(buf@, at as int),
{
    LittleEndian::read_i16(&buf[at..])
}

/// Reads the `u32` stored little-endian at `buf[at..at + 4]`.
///
/// Trusted: calls `byteorder::LittleEndian::read_u32` on `&buf[at..]`, which
/// decodes its first four bytes with `u32::from_le_bytes` and panics only when
/// fewer than four bytes are given.
#[verifier::external_body]
pub(crate) fn read_u32_le(buf: &[u8], at: usize) -> (r: u32)
    requires
        at + 4 <= buf@.len(),
    ensures
        r == le_u32(buf@, at as int),
{
    LittleEndian::read_u32(&buf[at..])
}

} // verus!
