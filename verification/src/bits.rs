//! The low-level operations every algorithm shares: little-endian words read
//! from a byte sequence, and bit rotation.
//!
//! Words are always assembled byte by byte, so a hash never depends on the
//! byte order of the machine.

use vstd::prelude::*;

verus! {

/// The byte `index` places after `at`, or zero once `index` reaches `count`.
pub open spec fn byte_or_zero(data: Seq<u8>, at: int, index: int, count: int) -> u32 {
    if index < count {
        data[at + index] as u32
    } else {
        0
    }
}

/// The first `count` bytes from `at` on, at most four, as the low bytes of a
/// little-endian word whose other bytes are zero.
pub open spec fn le_partial32(data: Seq<u8>, at: int, count: int) -> u32 {
    byte_or_zero(data, at, 0, count) | (byte_or_zero(data, at, 1, count) << 8) | (byte_or_zero(
        data,
        at,
        2,
        count,
    ) << 16) | (byte_or_zero(data, at, 3, count) << 24)
}

/// The four bytes from `at` on, as a little-endian word.
pub open spec fn le32(data: Seq<u8>, at: int) -> u32 {
    le_partial32(data, at, 4)
}

/// The eight bytes from `at` on, as a little-endian word.
pub open spec fn le64(data: Seq<u8>, at: int) -> u64 {
    (data[at] as u64) | ((data[at + 1] as u64) << 8) | ((data[at + 2] as u64) << 16) | ((data[at
        + 3] as u64) << 24) | ((data[at + 4] as u64) << 32) | ((data[at + 5] as u64) << 40) | ((
    data[at + 6] as u64) << 48) | ((data[at + 7] as u64) << 56)
}

/// `value` rotated left by `shift` bits, for a shift between 1 and 31.
pub open spec fn rotl32(value: u32, shift: u32) -> u32 {
    (value << shift) | (value >> ((32 - shift) as u32))
}

/// `value` rotated right by `shift` bits, for a shift between 1 and 63.
pub open spec fn rotr64(value: u64, shift: u32) -> u64 {
    (value >> shift) | (value << ((64 - shift) as u32))
}

/// Little-endian means that the byte `k` places in counts 256 to the power of
/// `k`: the word of four bytes is the number they spell in base 256, lowest
/// digit first.
pub proof fn lemma_le32_is_base_256(data: Seq<u8>, at: int)
    ensures
        le32(data, at) == data[at] + 0x100 * data[at + 1] + 0x1_0000 * data[at + 2] + 0x100_0000
            * data[at + 3],
{
    let b0 = data[at] as u32;
    let b1 = data[at + 1] as u32;
    let b2 = data[at + 2] as u32;
    let b3 = data[at + 3] as u32;
    assert(b0 < 256 && b1 < 256 && b2 < 256 && b3 < 256 ==> (b0 | (b1 << 8) | (b2 << 16) | (b3
        << 24)) == b0 + 0x100 * b1 + 0x1_0000 * b2 + 0x100_0000 * b3) by (bit_vector);
}

/// The word of eight bytes is the number they spell in base 256, lowest digit
/// first.
pub proof fn lemma_le64_is_base_256(data: Seq<u8>, at: int)
    ensures
        le64(data, at) == data[at] + 0x100 * data[at + 1] + 0x1_0000 * data[at + 2] + 0x100_0000
            * data[at + 3] + 0x1_0000_0000 * data[at + 4] + 0x100_0000_0000 * data[at + 5]
            + 0x1_0000_0000_0000 * data[at + 6] + 0x100_0000_0000_0000 * data[at + 7],
{
    let b0 = data[at] as u64;
    let b1 = data[at + 1] as u64;
    let b2 = data[at + 2] as u64;
    let b3 = data[at + 3] as u64;
    let b4 = data[at + 4] as u64;
    let b5 = data[at + 5] as u64;
    let b6 = data[at + 6] as u64;
    let b7 = data[at + 7] as u64;
    assert(b0 < 256 && b1 < 256 && b2 < 256 && b3 < 256 && b4 < 256 && b5 < 256 && b6 < 256 && b7
        < 256 ==> (b0 | (b1 << 8) | (b2 << 16) | (b3 << 24) | (b4 << 32) | (b5 << 40) | (b6 << 48)
        | (b7 << 56)) == b0 + 0x100 * b1 + 0x1_0000 * b2 + 0x100_0000 * b3 + 0x1_0000_0000 * b4
        + 0x100_0000_0000 * b5 + 0x1_0000_0000_0000 * b6 + 0x100_0000_0000_0000 * b7)
        by (bit_vector);
}

/// Reads up to four bytes from `at` on as the low bytes of a little-endian word.
pub fn fetch_partial32(bytes: &[u8], at: usize, count: usize) -> (word: u32)
    requires
        count <= 4,
        at + count <= bytes.len(),
    ensures
        word == le_partial32(bytes@, at as int, count as int),
{
    let b0: u32 = if 0 < count {
        bytes[at] as u32
    } else {
        0
    };
    let b1: u32 = if 1 < count {
        bytes[at + 1] as u32
    } else {
        0
    };
    let b2: u32 = if 2 < count {
        bytes[at + 2] as u32
    } else {
        0
    };
    let b3: u32 = if 3 < count {
        bytes[at + 3] as u32
    } else {
        0
    };
    b0 | (b1 << 8) | (b2 << 16) | (b3 << 24)
}

/// Reads the four bytes from `i` on as a little-endian word.
pub fn fetch32(bytes: &[u8], i: usize) -> (word: u32)
    requires
        i + 4 <= bytes.len(),
    ensures
        word == le32(bytes@, i as int),
{
    fetch_partial32(bytes, i, 4)
}

/// Reads the eight bytes from `i` on as a little-endian word.
pub fn fetch64(bytes: &[u8], i: usize) -> (word: u64)
    requires
        i + 8 <= bytes.len(),
    ensures
        word == le64(bytes@, i as int),
{
    (bytes[i] as u64) | ((bytes[i + 1] as u64) << 8) | ((bytes[i + 2] as u64) << 16) | ((bytes[i
        + 3] as u64) << 24) | ((bytes[i + 4] as u64) << 32) | ((bytes[i + 5] as u64) << 40) | ((
    bytes[i + 6] as u64) << 48) | ((bytes[i + 7] as u64) << 56)
}

/// Rotates `value` left by `shift` bits.
pub fn rotate_left32(value: u32, shift: u32) -> (rotated: u32)
    requires
        0 < shift < 32,
    ensures
        rotated == rotl32(value, shift),
{
    (value << shift) | (value >> (32 - shift))
}

} // verus!
