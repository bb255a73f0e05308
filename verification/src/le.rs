use byteorder::{ByteOrder, LittleEndian};
use vstd::prelude::*;

verus! {

/// The signed 16-bit number spelled by two bytes, low byte first.
pub open spec fn i16_le(b0: u8, b1: u8) -> int {
    let u = b0 as int + 256 * (b1 as int);
    if u >= 32768 {
        u - 65536
    } else {
        u
    }
}

/// The signed 32-bit number spelled by four bytes, low byte first.
pub open spec fn i32_le(b0: u8, b1: u8, b2: u8, b3: u8) -> int {
    let u = b0 as int + 256 * (b1 as int) + 65536 * (b2 as int) + 16777216 * (b3 as int);
    if u >= 2147483648 {
        u - 4294967296
    } else {
        u
    }
}

/// Calls `byteorder::LittleEndian::read_i16`, which reads the first two bytes
/// of the buffer as a little-endian two's complement number and panics on a
/// shorter buffer. The contract claims exactly that value; it is not proved.
#[verifier::external_body]
pub(crate) fn read_i16_le(buf: &[u8]) -> (r: i16)
    requires
        buf@.len() >= 2,
    ensures
        r as int == i16_le(buf@[0], buf@[1]),
{
    LittleEndian::read_i16(buf)
}

/// Calls `byteorder::LittleEndian::read_i32`, which reads the first four bytes
/// of the buffer as a little-endian two's complement number and panics on a
/// shorter buffer. The contract claims exactly that value; it is not proved.
#[verifier::external_body]
pub(crate) fn read_i32_le(buf: &[u8]) -> (r: i32)
    requires
        buf@.len() >= 4,
    ensures
        r as int == i32_le(buf@[0], buf@[1], buf@[2], buf@[3]),
{
    LittleEndian::read_i32(buf)
}

} // verus!
