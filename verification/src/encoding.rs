//! The number encodings shared by compiler and virtual machine: eight-byte
//! little-endian words, the compact one-byte integer form, and the bit-level
//! classification of IEEE-754 binary64 words that the machine's error
//! checks rest on.

use vstd::prelude::*;

verus! {

/// The eight bytes of `v`, least significant first.
pub open spec fn spec_le_bytes(v: u64) -> Seq<u8> {
    seq![
        (v & 0xff) as u8,
        ((v >> 8) & 0xff) as u8,
        ((v >> 16) & 0xff) as u8,
        ((v >> 24) & 0xff) as u8,
        ((v >> 32) & 0xff) as u8,
        ((v >> 40) & 0xff) as u8,
        ((v >> 48) & 0xff) as u8,
        ((v >> 56) & 0xff) as u8,
    ]
}

/// The word read from eight bytes, least significant first.
pub open spec fn spec_le_val(b: Seq<u8>) -> u64 {
    (b[0] as u64) | ((b[1] as u64) << 8) | ((b[2] as u64) << 16) | ((b[3] as u64) << 24) | (
    (b[4] as u64) << 32) | ((b[5] as u64) << 40) | ((b[6] as u64) << 48) | ((b[7] as u64) << 56)
}

/// Reading back the eight bytes of a word yields the word.
pub proof fn lemma_le_roundtrip(v: u64)
    ensures
        spec_le_val(spec_le_bytes(v)) == v,
{
    assert(((v & 0xff) as u8 as u64) | ((((v >> 8) & 0xff) as u8 as u64) << 8) | ((((v >> 16)
        & 0xff) as u8 as u64) << 16) | ((((v >> 24) & 0xff) as u8 as u64) << 24) | ((((v >> 32)
        & 0xff) as u8 as u64) << 32) | ((((v >> 40) & 0xff) as u8 as u64) << 40) | ((((v >> 48)
        & 0xff) as u8 as u64) << 48) | ((((v >> 56) & 0xff) as u8 as u64) << 56) == v)
        by (bit_vector);
}

/// Append the eight little-endian bytes of `v`.
pub fn push_le_bytes(chunk: &mut Vec<u8>, v: u64)
    ensures
        final(chunk)@ == old(chunk)@ + spec_le_bytes(v),
{
    proof {
        assert(v & 0xff < 256 && (v >> 8) & 0xff < 256 && (v >> 16) & 0xff < 256 && (v >> 24)
            & 0xff < 256 && (v >> 32) & 0xff < 256 && (v >> 40) & 0xff < 256 && (v >> 48) & 0xff
            < 256 && (v >> 56) & 0xff < 256) by (bit_vector);
    }
    chunk.push((v & 0xff) as u8);
    chunk.push(((v >> 8) & 0xff) as u8);
    chunk.push(((v >> 16) & 0xff) as u8);
    chunk.push(((v >> 24) & 0xff) as u8);
    chunk.push(((v >> 32) & 0xff) as u8);
    chunk.push(((v >> 40) & 0xff) as u8);
    chunk.push(((v >> 48) & 0xff) as u8);
    chunk.push(((v >> 56) & 0xff) as u8);
    proof {
        assert(chunk@ =~= old(chunk)@ + spec_le_bytes(v));
    }
}

/// Read the word whose eight little-endian bytes stand at `pos`.
pub fn read_le_u64(bytes: &[u8], pos: usize) -> (v: u64)
    requires
        pos + 8 <= bytes@.len(),
    ensures
        v == spec_le_val(bytes@.subrange(pos as int, pos + 8)),
{
    let b0: u64 = bytes[pos] as u64;
    let b1: u64 = bytes[pos + 1] as u64;
    let b2: u64 = bytes[pos + 2] as u64;
    let b3: u64 = bytes[pos + 3] as u64;
    let b4: u64 = bytes[pos + 4] as u64;
    let b5: u64 = bytes[pos + 5] as u64;
    let b6: u64 = bytes[pos + 6] as u64;
    let b7: u64 = bytes[pos + 7] as u64;
    proof {
        let s = bytes@.subrange(pos as int, pos + 8);
        assert(s[0] == bytes@[pos as int] && s[1] == bytes@[pos + 1] && s[2] == bytes@[pos + 2]
            && s[3] == bytes@[pos + 3] && s[4] == bytes@[pos + 4] && s[5] == bytes@[pos + 5]
            && s[6] == bytes@[pos + 6] && s[7] == bytes@[pos + 7]);
    }
    b0 | (b1 << 8) | (b2 << 16) | (b3 << 24) | (b4 << 32) | (b5 << 40) | (b6 << 48) | (b7 << 56)
}

/// Position of the highest set bit of a value in `[1, 128]`.
pub open spec fn ilog2_small(a: int) -> int {
    if a < 2 {
        0
    } else if a < 4 {
        1
    } else if a < 8 {
        2
    } else if a < 16 {
        3
    } else if a < 32 {
        4
    } else if a < 64 {
        5
    } else if a < 128 {
        6
    } else {
        7
    }
}

/// The binary64 word that holds the integer `n`, for `-128 <= n <= 127`:
/// sign bit, biased exponent, and the remainder of `|n|` shifted into the
/// top of the mantissa field.
pub open spec fn dbl_bits_of_small(n: int) -> u64 {
    if n == 0 {
        0
    } else {
        let a = (if n < 0 {
            -n
        } else {
            n
        }) as u64;
        let k = ilog2_small(a as int) as u64;
        let sign: u64 = if n < 0 {
            0x8000000000000000
        } else {
            0
        };
        sign | (((1023 + k) as u64) << 52) | ((a - ((1u64 << k) as u64)) as u64) << (((52 - k) as u64))
    }
}

/// The word for the integer read from one signed byte.
pub fn dbl_bits_of_i8(n: i8) -> (bits: u64)
    ensures
        bits == dbl_bits_of_small(n as int),
{
    if n == 0 {
        return 0;
    }
    let neg: bool = n < 0;
    let a: u64 = if neg {
        (-(n as i64)) as u64
    } else {
        n as u64
    };
    let k: u64 = if a < 2 {
        0
    } else if a < 4 {
        1
    } else if a < 8 {
        2
    } else if a < 16 {
        3
    } else if a < 32 {
        4
    } else if a < 64 {
        5
    } else if a < 128 {
        6
    } else {
        7
    };
    let sign: u64 = if neg {
        0x8000000000000000
    } else {
        0
    };
    proof {
        assert(a >= ((1u64 << k) as u64)) by {
            assert((1u64 << 0) == 1 && (1u64 << 1) == 2 && (1u64 << 2) == 4 && (1u64 << 3) == 8
                && (1u64 << 4) == 16 && (1u64 << 5) == 32 && (1u64 << 6) == 64 && (1u64 << 7)
                == 128) by (bit_vector);
        }
    }
    sign | ((1023 + k) << 52) | ((a - (1u64 << k)) << (52 - k))
}

/// The eleven exponent bits.
pub open spec fn exp_bits(b: u64) -> u64 {
    (b >> 52) & 0x7ff
}

/// Whether the word is a (positive or negative) zero.
pub open spec fn spec_is_zero_bits(b: u64) -> bool {
    b & 0x7fffffffffffffff == 0
}

pub fn is_zero_bits(b: u64) -> (r: bool)
    ensures
        r == spec_is_zero_bits(b),
{
    b & 0x7fffffffffffffff == 0
}

/// Whether the word is a NaN.
pub open spec fn spec_is_nan_bits(b: u64) -> bool {
    exp_bits(b) == 0x7ff && b & 0xfffffffffffff != 0
}

pub fn is_nan_bits(b: u64) -> (r: bool)
    ensures
        r == spec_is_nan_bits(b),
{
    (b >> 52) & 0x7ff == 0x7ff && b & 0xfffffffffffff != 0
}

/// Whether the word is finite (neither an infinity nor a NaN).
pub open spec fn spec_is_finite_bits(b: u64) -> bool {
    exp_bits(b) != 0x7ff
}

pub fn is_finite_bits(b: u64) -> (r: bool)
    ensures
        r == spec_is_finite_bits(b),
{
    (b >> 52) & 0x7ff != 0x7ff
}

/// The word of the negated value: the sign bit flipped.
pub open spec fn spec_negate_bits(b: u64) -> u64 {
    b ^ 0x8000000000000000
}

pub fn negate_bits(b: u64) -> (r: u64)
    ensures
        r == spec_negate_bits(b),
{
    b ^ 0x8000000000000000
}

} // verus!
