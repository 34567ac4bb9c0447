//! Reinterpretations between a byte and a signed byte, as the bytecode
//! stores one-byte integer payloads.

use vstd::prelude::*;

verus! {

/// The signed reading of a byte (two's complement).
pub open spec fn spec_u8_as_i8(byte: u8) -> int {
    if byte < 128 {
        byte as int
    } else {
        byte - 256
    }
}

pub fn u8_as_i8(byte: u8) -> (r: i8)
    ensures
        r as int == spec_u8_as_i8(byte),
{
    if byte < 128 {
        byte as i8
    } else {
        ((byte as i16) - 256) as i8
    }
}

/// The byte that carries a signed value (two's complement).
pub open spec fn spec_i8_as_u8(byte: i8) -> int {
    if byte >= 0 {
        byte as int
    } else {
        byte + 256
    }
}

pub fn i8_as_u8(byte: i8) -> (r: u8)
    ensures
        r as int == spec_i8_as_u8(byte),
{
    if byte >= 0 {
        byte as u8
    } else {
        ((byte as i16) + 256) as u8
    }
}

} // verus!
