//! Fixed-width big-endian primitives: the one-byte tag discriminants, the
//! recursion bound, and readers/writers for the packed integer fields that
//! every payload is built from.

use vstd::prelude::*;
use vstd::slice::slice_index_get;

verus! {

pub const END_ID: u8 = 0;

pub const BYTE_ID: u8 = 1;

pub const SHORT_ID: u8 = 2;

pub const INT_ID: u8 = 3;

pub const LONG_ID: u8 = 4;

pub const FLOAT_ID: u8 = 5;

pub const DOUBLE_ID: u8 = 6;

pub const BYTE_ARRAY_ID: u8 = 7;

pub const STRING_ID: u8 = 8;

pub const LIST_ID: u8 = 9;

pub const COMPOUND_ID: u8 = 10;

pub const INT_ARRAY_ID: u8 = 11;

pub const LONG_ARRAY_ID: u8 = 12;

/// Bound on nested compound/list recursion, so adversarial nesting cannot
/// exhaust the stack.
pub const MAX_DEPTH: u32 = 512;

/// The big-endian bytes of a 16-bit value.
pub open spec fn enc_u16(v: u16) -> Seq<u8> {
    seq![((v >> 8) & 0xFF) as u8, (v & 0xFF) as u8]
}

/// The big-endian bytes of a 32-bit value.
pub open spec fn enc_u32(v: u32) -> Seq<u8> {
    seq![
        ((v >> 24) & 0xFF) as u8,
        ((v >> 16) & 0xFF) as u8,
        ((v >> 8) & 0xFF) as u8,
        (v & 0xFF) as u8,
    ]
}

/// The big-endian bytes of a 64-bit value.
pub open spec fn enc_u64(v: u64) -> Seq<u8> {
    seq![
        ((v >> 56) & 0xFF) as u8,
        ((v >> 48) & 0xFF) as u8,
        ((v >> 40) & 0xFF) as u8,
        ((v >> 32) & 0xFF) as u8,
        ((v >> 24) & 0xFF) as u8,
        ((v >> 16) & 0xFF) as u8,
        ((v >> 8) & 0xFF) as u8,
        (v & 0xFF) as u8,
    ]
}

/// The 16-bit value stored big-endian in two bytes.
pub open spec fn be_u16(b0: u8, b1: u8) -> u16 {
    ((b0 as u16) << 8) | (b1 as u16)
}

/// The 32-bit value stored big-endian in four bytes.
pub open spec fn be_u32(b0: u8, b1: u8, b2: u8, b3: u8) -> u32 {
    ((b0 as u32) << 24) | ((b1 as u32) << 16) | ((b2 as u32) << 8) | (b3 as u32)
}

/// The 64-bit value stored big-endian in eight bytes.
pub open spec fn be_u64(b0: u8, b1: u8, b2: u8, b3: u8, b4: u8, b5: u8, b6: u8, b7: u8) -> u64 {
    ((b0 as u64) << 56) | ((b1 as u64) << 48) | ((b2 as u64) << 40) | ((b3 as u64) << 32) | ((
    b4 as u64) << 24) | ((b5 as u64) << 16) | ((b6 as u64) << 8) | (b7 as u64)
}

/// Re-encoding the 16-bit value read from two bytes reproduces the bytes.
pub broadcast proof fn lemma_u16_enc_of_be(b0: u8, b1: u8)
    ensures
        #[trigger] enc_u16(be_u16(b0, b1)) == seq![b0, b1],
{
    let v = be_u16(b0, b1);
    assert(((((((b0 as u16) << 8) | (b1 as u16)) >> 8) & 0xFF) as u8) == b0) by (bit_vector);
    assert((((((b0 as u16) << 8) | (b1 as u16)) & 0xFF) as u8) == b1) by (bit_vector);
    assert(enc_u16(v) =~= seq![b0, b1]);
}

/// Re-encoding the 32-bit value read from four bytes reproduces the bytes.
pub broadcast proof fn lemma_u32_enc_of_be(b0: u8, b1: u8, b2: u8, b3: u8)
    ensures
        #[trigger] enc_u32(be_u32(b0, b1, b2, b3)) == seq![b0, b1, b2, b3],
{
    let v = be_u32(b0, b1, b2, b3);
    assert({
        let w = ((b0 as u32) << 24) | ((b1 as u32) << 16) | ((b2 as u32) << 8) | (b3 as u32);
        (((w >> 24) & 0xFF) as u8) == b0 && (((w >> 16) & 0xFF) as u8) == b1 && (((w >> 8)
            & 0xFF) as u8) == b2 && ((w & 0xFF) as u8) == b3
    }) by (bit_vector);
    assert(enc_u32(v) =~= seq![b0, b1, b2, b3]);
}

/// Re-encoding the 64-bit value read from eight bytes reproduces the bytes.
pub broadcast proof fn lemma_u64_enc_of_be(b0: u8, b1: u8, b2: u8, b3: u8, b4: u8, b5: u8, b6: u8, b7: u8)
    ensures
        #[trigger] enc_u64(be_u64(b0, b1, b2, b3, b4, b5, b6, b7)) == seq![
            b0,
            b1,
            b2,
            b3,
            b4,
            b5,
            b6,
            b7,
        ],
{
    let v = be_u64(b0, b1, b2, b3, b4, b5, b6, b7);
    assert({
        let w = ((b0 as u64) << 56) | ((b1 as u64) << 48) | ((b2 as u64) << 40) | ((b3 as u64)
            << 32) | ((b4 as u64) << 24) | ((b5 as u64) << 16) | ((b6 as u64) << 8) | (b7 as u64);
        (((w >> 56) & 0xFF) as u8) == b0 && (((w >> 48) & 0xFF) as u8) == b1 && (((w >> 40)
            & 0xFF) as u8) == b2 && (((w >> 32) & 0xFF) as u8) == b3 && (((w >> 24) & 0xFF) as u8)
            == b4 && (((w >> 16) & 0xFF) as u8) == b5 && (((w >> 8) & 0xFF) as u8) == b6 && ((w
            & 0xFF) as u8) == b7
    }) by (bit_vector);
    assert(enc_u64(v) =~= seq![b0, b1, b2, b3, b4, b5, b6, b7]);
}

/// The signed reading of a 16-bit two's-complement word.
pub open spec fn i16_of(v: u16) -> i16 {
    if v <= 0x7FFF {
        v as i16
    } else {
        (v - 0x10000) as i16
    }
}

/// The 16-bit two's-complement word of a signed value.
pub open spec fn u16_of_i16(v: i16) -> u16 {
    if v >= 0 {
        v as u16
    } else {
        (v + 0x10000) as u16
    }
}

/// The signed reading of a byte.
pub open spec fn i8_of(v: u8) -> i8 {
    if v <= 0x7F {
        v as i8
    } else {
        (v - 0x100) as i8
    }
}

/// The byte holding a signed 8-bit value.
pub open spec fn u8_of_i8(v: i8) -> u8 {
    if v >= 0 {
        v as u8
    } else {
        (v + 0x100) as u8
    }
}

/// The signed reading of a 32-bit two's-complement word.
pub open spec fn i32_of(v: u32) -> i32 {
    if v <= 0x7FFF_FFFF {
        v as i32
    } else {
        (v - 0x1_0000_0000) as i32
    }
}

/// The 32-bit two's-complement word of a signed value.
pub open spec fn u32_of_i32(v: i32) -> u32 {
    if v >= 0 {
        v as u32
    } else {
        (v + 0x1_0000_0000) as u32
    }
}

/// The signed reading of a 64-bit two's-complement word.
pub open spec fn i64_of(v: u64) -> i64 {
    if v <= 0x7FFF_FFFF_FFFF_FFFF {
        v as i64
    } else {
        (v - 0x1_0000_0000_0000_0000) as i64
    }
}

/// The 64-bit two's-complement word of a signed value.
pub open spec fn u64_of_i64(v: i64) -> u64 {
    if v >= 0 {
        v as u64
    } else {
        (v + 0x1_0000_0000_0000_0000) as u64
    }
}

/// Reads the byte at `pos`.
pub fn read_u8(data: &[u8], pos: usize) -> (r: u8)
    requires
        pos < data@.len(),
    ensures
        r == data@[pos as int],
{
    *slice_index_get(data, pos)
}

/// Reads a big-endian 16-bit value at `pos`.
pub fn read_u16_be(data: &[u8], pos: usize) -> (r: u16)
    requires
        pos + 2 <= data@.len(),
    ensures
        r == be_u16(data@[pos as int], data@[pos as int + 1]),
{
    let n = data.len();
    let b0 = *slice_index_get(data, pos);
    let b1 = *slice_index_get(data, pos + 1);
    ((b0 as u16) << 8) | (b1 as u16)
}

/// Reads a big-endian 32-bit value at `pos`.
pub fn read_u32_be(data: &[u8], pos: usize) -> (r: u32)
    requires
        pos + 4 <= data@.len(),
    ensures
        r == be_u32(
            data@[pos as int],
            data@[pos as int + 1],
            data@[pos as int + 2],
            data@[pos as int + 3],
        ),
{
    let n = data.len();
    let b0 = *slice_index_get(data, pos);
    let b1 = *slice_index_get(data, pos + 1);
    let b2 = *slice_index_get(data, pos + 2);
    let b3 = *slice_index_get(data, pos + 3);
    ((b0 as u32) << 24) | ((b1 as u32) << 16) | ((b2 as u32) << 8) | (b3 as u32)
}

/// Reads a big-endian 64-bit value at `pos`.
pub fn read_u64_be(data: &[u8], pos: usize) -> (r: u64)
    requires
        pos + 8 <= data@.len(),
    ensures
        r == be_u64(
            data@[pos as int],
            data@[pos as int + 1],
            data@[pos as int + 2],
            data@[pos as int + 3],
            data@[pos as int + 4],
            data@[pos as int + 5],
            data@[pos as int + 6],
            data@[pos as int + 7],
        ),
{
    let n = data.len();
    let b0 = *slice_index_get(data, pos);
    let b1 = *slice_index_get(data, pos + 1);
    let b2 = *slice_index_get(data, pos + 2);
    let b3 = *slice_index_get(data, pos + 3);
    let b4 = *slice_index_get(data, pos + 4);
    let b5 = *slice_index_get(data, pos + 5);
    let b6 = *slice_index_get(data, pos + 6);
    let b7 = *slice_index_get(data, pos + 7);
    ((b0 as u64) << 56) | ((b1 as u64) << 48) | ((b2 as u64) << 40) | ((b3 as u64) << 32) | ((
    b4 as u64) << 24) | ((b5 as u64) << 16) | ((b6 as u64) << 8) | (b7 as u64)
}

/// Appends the big-endian bytes of a 16-bit value.
pub fn write_u16_be(out: &mut Vec<u8>, v: u16)
    ensures
        final(out)@ == old(out)@ + enc_u16(v),
{
    out.push(((v >> 8) & 0xFF) as u8);
    out.push((v & 0xFF) as u8);
    assert(out@ =~= old(out)@ + enc_u16(v));
}

/// Appends the big-endian bytes of a 32-bit value.
pub fn write_u32_be(out: &mut Vec<u8>, v: u32)
    ensures
        final(out)@ == old(out)@ + enc_u32(v),
{
    out.push(((v >> 24) & 0xFF) as u8);
    out.push(((v >> 16) & 0xFF) as u8);
    out.push(((v >> 8) & 0xFF) as u8);
    out.push((v & 0xFF) as u8);
    assert(out@ =~= old(out)@ + enc_u32(v));
}

/// Appends the big-endian bytes of a 64-bit value.
pub fn write_u64_be(out: &mut Vec<u8>, v: u64)
    ensures
        final(out)@ == old(out)@ + enc_u64(v),
{
    out.push(((v >> 56) & 0xFF) as u8);
    out.push(((v >> 48) & 0xFF) as u8);
    out.push(((v >> 40) & 0xFF) as u8);
    out.push(((v >> 32) & 0xFF) as u8);
    out.push(((v >> 24) & 0xFF) as u8);
    out.push(((v >> 16) & 0xFF) as u8);
    out.push(((v >> 8) & 0xFF) as u8);
    out.push((v & 0xFF) as u8);
    assert(out@ =~= old(out)@ + enc_u64(v));
}

/// Converts a two's-complement word to its signed reading.
pub fn to_i16(v: u16) -> (r: i16)
    ensures
        r == i16_of(v),
{
    if v <= 0x7FFF {
        v as i16
    } else {
        ((v as i32) - 0x10000) as i16
    }
}

/// Converts a signed value to its two's-complement word.
pub fn to_u16(v: i16) -> (r: u16)
    ensures
        r == u16_of_i16(v),
{
    if v >= 0 {
        v as u16
    } else {
        ((v as i32) + 0x10000) as u16
    }
}

/// Converts a byte to its signed reading.
pub fn to_i8(v: u8) -> (r: i8)
    ensures
        r == i8_of(v),
{
    if v <= 0x7F {
        v as i8
    } else {
        ((v as i16) - 0x100) as i8
    }
}

/// Converts a signed 8-bit value to its byte.
pub fn to_u8(v: i8) -> (r: u8)
    ensures
        r == u8_of_i8(v),
{
    if v >= 0 {
        v as u8
    } else {
        ((v as i16) + 0x100) as u8
    }
}

/// Converts a two's-complement word to its signed reading.
pub fn to_i32(v: u32) -> (r: i32)
    ensures
        r == i32_of(v),
{
    if v <= 0x7FFF_FFFF {
        v as i32
    } else {
        ((v as i64) - 0x1_0000_0000) as i32
    }
}

/// Converts a signed value to its two's-complement word.
pub fn to_u32(v: i32) -> (r: u32)
    ensures
        r == u32_of_i32(v),
{
    if v >= 0 {
        v as u32
    } else {
        ((v as i64) + 0x1_0000_0000) as u32
    }
}

/// Converts a two's-complement word to its signed reading.
pub fn to_i64(v: u64) -> (r: i64)
    ensures
        r == i64_of(v),
{
    if v <= 0x7FFF_FFFF_FFFF_FFFF {
        v as i64
    } else {
        (((v - 0x8000_0000_0000_0000) as i64) - 0x4000_0000_0000_0000) - 0x4000_0000_0000_0000
    }
}

/// Converts a signed value to its two's-complement word.
pub fn to_u64(v: i64) -> (r: u64)
    ensures
        r == u64_of_i64(v),
{
    if v >= 0 {
        v as u64
    } else {
        ((v + 0x4000_0000_0000_0000) + 0x4000_0000_0000_0000) as u64 + 0x8000_0000_0000_0000
    }
}

/// The signed conversions invert each other.
pub broadcast proof fn lemma_i16_round_trip(v: u16)
    ensures
        u16_of_i16(#[trigger] i16_of(v)) == v,
{
}

/// The signed conversions invert each other.
pub broadcast proof fn lemma_i8_round_trip(v: u8)
    ensures
        u8_of_i8(#[trigger] i8_of(v)) == v,
{
}

/// The signed conversions invert each other.
pub broadcast proof fn lemma_i32_round_trip(v: u32)
    ensures
        u32_of_i32(#[trigger] i32_of(v)) == v,
{
}

/// The signed conversions invert each other.
pub broadcast proof fn lemma_i64_round_trip(v: u64)
    ensures
        u64_of_i64(#[trigger] i64_of(v)) == v,
{
}

} // verus!
