//! The mathematical description of the XDR wire format: big-endian byte
//! strings for the fixed-width integers, two's-complement bit patterns for
//! the signed ones, and the zero padding that aligns variable-length data
//! to four bytes.

use vstd::prelude::*;

verus! {

// ---------------------------------------------------------------------------
// Saturating conversions, used by diagnostic fields of the error type.
// ---------------------------------------------------------------------------

/// `v` clamped into the range of `usize`.
pub open spec fn clamp_usize(v: int) -> usize {
    if v > usize::MAX {
        usize::MAX
    } else if v < 0 {
        0
    } else {
        v as usize
    }
}

/// `v` clamped into the range of `isize`.
pub open spec fn clamp_isize(v: int) -> isize {
    if v > isize::MAX {
        isize::MAX
    } else if v < isize::MIN {
        isize::MIN
    } else {
        v as isize
    }
}

// ---------------------------------------------------------------------------
// Padding arithmetic: variable-length payloads are aligned to four bytes.
// ---------------------------------------------------------------------------

/// How many zero bytes follow `len` payload bytes on the wire.
pub open spec fn pad_len(len: int) -> int {
    (4 - len % 4) % 4
}

/// The total wire size of `len` payload bytes: `len` rounded up to the next
/// multiple of four.
pub open spec fn padded_len(len: int) -> int {
    len + pad_len(len)
}

/// The padding itself: `n` zero bytes.
pub open spec fn zero_pad(n: int) -> Seq<u8> {
    Seq::new(n as nat, |i: int| 0u8)
}

pub proof fn lemma_pad_len_bounds(len: int)
    requires
        0 <= len,
    ensures
        0 <= pad_len(len) <= 3,
        len <= padded_len(len) <= len + 3,
{
    let r = len % 4;
    assert(0 <= r < 4);
}

/// A payload longer than `usize::MAX - 3` bytes cannot fit any address
/// space once padded: its padded size exceeds `usize::MAX`.
pub proof fn lemma_padded_len_overflow(len: int)
    requires
        usize::MAX - 3 < len <= usize::MAX,
    ensures
        padded_len(len) > usize::MAX,
{
    assert(usize::MAX % 4 == 3) by {
        assert(usize::MAX == 0xffff_ffff || usize::MAX == 0xffff_ffff_ffff_ffff);
    }
    let r = len % 4;
    assert(0 <= r < 4);
    if len == usize::MAX - 2 {
        assert(r == 1);
    } else if len == usize::MAX - 1 {
        assert(r == 2);
    } else {
        assert(r == 3);
    }
}

// ---------------------------------------------------------------------------
// Big-endian byte strings of the unsigned fixed-width integers.
// ---------------------------------------------------------------------------

/// The four big-endian bytes of `v`.
pub open spec fn u32_be_bytes(v: u32) -> Seq<u8> {
    seq![
        ((v >> 24) & 0xff) as u8,
        ((v >> 16) & 0xff) as u8,
        ((v >> 8) & 0xff) as u8,
        (v & 0xff) as u8,
    ]
}

/// The unsigned 32-bit value carried by four big-endian bytes.
pub open spec fn u32_of_be_bytes(s: Seq<u8>) -> u32
    recommends
        s.len() == 4,
{
    ((s[0] as u32) << 24) | ((s[1] as u32) << 16) | ((s[2] as u32) << 8) | (s[3] as u32)
}

/// The eight big-endian bytes of `v`.
pub open spec fn u64_be_bytes(v: u64) -> Seq<u8> {
    seq![
        ((v >> 56) & 0xff) as u8,
        ((v >> 48) & 0xff) as u8,
        ((v >> 40) & 0xff) as u8,
        ((v >> 32) & 0xff) as u8,
        ((v >> 24) & 0xff) as u8,
        ((v >> 16) & 0xff) as u8,
        ((v >> 8) & 0xff) as u8,
        (v & 0xff) as u8,
    ]
}

/// The unsigned 64-bit value carried by eight big-endian bytes.
pub open spec fn u64_of_be_bytes(s: Seq<u8>) -> u64
    recommends
        s.len() == 8,
{
    ((s[0] as u64) << 56) | ((s[1] as u64) << 48) | ((s[2] as u64) << 40) | ((s[3] as u64) << 32)
        | ((s[4] as u64) << 24) | ((s[5] as u64) << 16) | ((s[6] as u64) << 8) | (s[7] as u64)
}

/// Each big-endian byte of a `u32` is below 256, and reassembling them
/// recovers the value.
pub proof fn lemma_u32_be_bytes(v: u32)
    ensures
        (v >> 24) & 0xff < 256,
        (v >> 16) & 0xff < 256,
        (v >> 8) & 0xff < 256,
        v & 0xff < 256,
        u32_be_bytes(v).len() == 4,
        u32_of_be_bytes(u32_be_bytes(v)) == v,
{
    assert((v >> 24) & 0xff < 256 && (v >> 16) & 0xff < 256 && (v >> 8) & 0xff < 256 && v & 0xff
        < 256) by (bit_vector);
    let b0 = ((v >> 24) & 0xff) as u8;
    let b1 = ((v >> 16) & 0xff) as u8;
    let b2 = ((v >> 8) & 0xff) as u8;
    let b3 = (v & 0xff) as u8;
    assert(((b0 as u32) << 24) | ((b1 as u32) << 16) | ((b2 as u32) << 8) | (b3 as u32) == v)
        by (bit_vector)
        requires
            b0 == ((v >> 24) & 0xff) as u8,
            b1 == ((v >> 16) & 0xff) as u8,
            b2 == ((v >> 8) & 0xff) as u8,
            b3 == (v & 0xff) as u8,
    ;
}

/// Each big-endian byte of a `u64` is below 256, and reassembling them
/// recovers the value.
pub proof fn lemma_u64_be_bytes(v: u64)
    ensures
        (v >> 56) & 0xff < 256,
        (v >> 48) & 0xff < 256,
        (v >> 40) & 0xff < 256,
        (v >> 32) & 0xff < 256,
        (v >> 24) & 0xff < 256,
        (v >> 16) & 0xff < 256,
        (v >> 8) & 0xff < 256,
        v & 0xff < 256,
        u64_be_bytes(v).len() == 8,
        u64_of_be_bytes(u64_be_bytes(v)) == v,
{
    assert((v >> 56) & 0xff < 256 && (v >> 48) & 0xff < 256 && (v >> 40) & 0xff < 256 && (v >> 32)
        & 0xff < 256 && (v >> 24) & 0xff < 256 && (v >> 16) & 0xff < 256 && (v >> 8) & 0xff < 256
        && v & 0xff < 256) by (bit_vector);
    let b0 = ((v >> 56) & 0xff) as u8;
    let b1 = ((v >> 48) & 0xff) as u8;
    let b2 = ((v >> 40) & 0xff) as u8;
    let b3 = ((v >> 32) & 0xff) as u8;
    let b4 = ((v >> 24) & 0xff) as u8;
    let b5 = ((v >> 16) & 0xff) as u8;
    let b6 = ((v >> 8) & 0xff) as u8;
    let b7 = (v & 0xff) as u8;
    assert(((b0 as u64) << 56) | ((b1 as u64) << 48) | ((b2 as u64) << 40) | ((b3 as u64) << 32)
        | ((b4 as u64) << 24) | ((b5 as u64) << 16) | ((b6 as u64) << 8) | (b7 as u64) == v)
        by (bit_vector)
        requires
            b0 == ((v >> 56) & 0xff) as u8,
            b1 == ((v >> 48) & 0xff) as u8,
            b2 == ((v >> 40) & 0xff) as u8,
            b3 == ((v >> 32) & 0xff) as u8,
            b4 == ((v >> 24) & 0xff) as u8,
            b5 == ((v >> 16) & 0xff) as u8,
            b6 == ((v >> 8) & 0xff) as u8,
            b7 == (v & 0xff) as u8,
    ;
}

// ---------------------------------------------------------------------------
// Two's-complement bit patterns of the signed integers, in arithmetic form.
// ---------------------------------------------------------------------------

/// The unsigned 32-bit value with the same bit pattern as `v`.
pub open spec fn u32_bits_of_i32(v: i32) -> u32 {
    if v >= 0 {
        v as u32
    } else {
        (v + 0x1_0000_0000) as u32
    }
}

/// The signed 32-bit value with the same bit pattern as `u`.
pub open spec fn i32_of_u32_bits(u: u32) -> i32 {
    if u < 0x8000_0000 {
        u as i32
    } else {
        (u - 0x1_0000_0000) as i32
    }
}

/// The unsigned 64-bit value with the same bit pattern as `v`.
pub open spec fn u64_bits_of_i64(v: i64) -> u64 {
    if v >= 0 {
        v as u64
    } else {
        (v + 0x1_0000_0000_0000_0000) as u64
    }
}

/// The signed 64-bit value with the same bit pattern as `u`.
pub open spec fn i64_of_u64_bits(u: u64) -> i64 {
    if u < 0x8000_0000_0000_0000 {
        u as i64
    } else {
        (u - 0x1_0000_0000_0000_0000) as i64
    }
}

pub proof fn lemma_i32_bits_round_trip(v: i32)
    ensures
        i32_of_u32_bits(u32_bits_of_i32(v)) == v,
{
}

pub proof fn lemma_i64_bits_round_trip(v: i64)
    ensures
        i64_of_u64_bits(u64_bits_of_i64(v)) == v,
{
}

} // verus!
