//! Read and write DWARF's "Little Endian Base 128" (LEB128) variable length
//! integer encoding.
//!
//! Each encoded byte carries seven payload bits (least-significant group
//! first) and a continuation flag in bit 7; in a signed encoding, bit 6 of
//! the final byte is the sign bit used for sign extension.

use vstd::prelude::*;

pub mod laws;
pub mod read;
pub mod wire;
pub mod write;

verus! {

/// Bit 7 of an encoded byte: set when more bytes follow.
pub const CONTINUATION_BIT: u8 = 128;

/// Bit 6 of the final byte of a signed encoding: set when the decoded
/// value is negative.
pub const SIGN_BIT: u8 = 64;

/// The seven payload bits of an encoded byte.
pub fn low_bits_of_byte(byte: u8) -> (r: u8)
    ensures
        r == byte % 128,
{
    proof {
        assert(byte & !128u8 == byte % 128) by (bit_vector);
    }
    byte & !CONTINUATION_BIT
}

/// The seven payload bits of the least significant byte of `val`.
pub fn low_bits_of_u64(val: u64) -> (r: u8)
    ensures
        r == val % 128,
{
    proof {
        assert(val & 0xff < 256) by (bit_vector);
        assert(((val & 0xff) as u8) % 128 == val % 128) by (bit_vector);
    }
    let byte = (val & 0xff) as u8;
    low_bits_of_byte(byte)
}

} // verus!
