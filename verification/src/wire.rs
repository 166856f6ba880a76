//! The byte-level encoding: little-endian integers and self-relative offsets.

use vstd::prelude::*;
use crate::error::ValidationError;

verus! {

/// The unsigned value of the `width` bytes at `pos`, least significant first.
pub open spec fn le_value(bytes: Seq<u8>, pos: int, width: nat) -> nat
    decreases width,
{
    if width == 0 {
        0
    } else {
        (bytes[pos] as nat) + 256 * le_value(bytes, pos + 1, (width - 1) as nat)
    }
}

/// The signed value of the four bytes at `pos`, read as two's complement.
pub open spec fn stored_offset(bytes: Seq<u8>, pos: int) -> int {
    let v = le_value(bytes, pos, 4);
    if v >= 0x8000_0000 {
        v - 0x1_0000_0000
    } else {
        v as int
    }
}

/// The position that an offset of `stored`, kept in a field at `field_pos`,
/// points to: the sum of the two, where that lies in an archive of `len`
/// bytes (its end included).
pub open spec fn resolved(field_pos: int, stored: int, len: int) -> Option<int> {
    if 0 <= field_pos + stored <= len {
        Some(field_pos + stored)
    } else {
        None
    }
}

pub proof fn lemma_le_value_bound(bytes: Seq<u8>, pos: int, width: nat)
    ensures
        width == 1 ==> le_value(bytes, pos, width) < 0x100,
        width == 2 ==> le_value(bytes, pos, width) < 0x1_0000,
        width == 4 ==> le_value(bytes, pos, width) < 0x1_0000_0000,
        width == 8 ==> le_value(bytes, pos, width) < 0x1_0000_0000_0000_0000,
{
    reveal_with_fuel(le_value, 9);
}

/// Reads one byte.
pub fn read_u8(bytes: &[u8], pos: usize) -> (v: u8)
    requires
        pos + 1 <= bytes@.len(),
    ensures
        v == le_value(bytes@, pos as int, 1),
{
    proof {
        reveal_with_fuel(le_value, 2);
    }
    bytes[pos]
}

/// Reads two bytes, least significant first.
pub fn read_u16(bytes: &[u8], pos: usize) -> (v: u16)
    requires
        pos + 2 <= bytes@.len(),
    ensures
        v == le_value(bytes@, pos as int, 2),
{
    proof {
        reveal_with_fuel(le_value, 3);
    }
    let b0: u16 = bytes[pos] as u16;
    let b1: u16 = bytes[pos + 1] as u16;
    b0 + 256 * b1
}

/// Reads four bytes, least significant first.
pub fn read_u32(bytes: &[u8], pos: usize) -> (v: u32)
    requires
        pos + 4 <= bytes@.len(),
    ensures
        v == le_value(bytes@, pos as int, 4),
{
    proof {
        reveal_with_fuel(le_value, 5);
    }
    let b0: u32 = bytes[pos] as u32;
    let b1: u32 = bytes[pos + 1] as u32;
    let b2: u32 = bytes[pos + 2] as u32;
    let b3: u32 = bytes[pos + 3] as u32;
    b0 + 256 * (b1 + 256 * (b2 + 256 * b3))
}

/// Reads eight bytes, least significant first.
pub fn read_u64(bytes: &[u8], pos: usize) -> (v: u64)
    requires
        pos + 8 <= bytes@.len(),
    ensures
        v == le_value(bytes@, pos as int, 8),
{
    proof {
        reveal_with_fuel(le_value, 5);
        lemma_le_value_bound(bytes@, pos as int, 4);
        lemma_le_value_bound(bytes@, pos + 4, 4);
        lemma_le_value_split(bytes@, pos as int);
    }
    let total: usize = bytes.len();
    let low: u64 = read_u32(bytes, pos) as u64;
    let high: u64 = read_u32(bytes, pos + 4) as u64;
    low + 0x1_0000_0000 * high
}

/// Eight bytes are worth their low four plus 2^32 times their high four.
pub proof fn lemma_le_value_split(bytes: Seq<u8>, pos: int)
    ensures
        le_value(bytes, pos, 8) == le_value(bytes, pos, 4) + 0x1_0000_0000 * le_value(
            bytes,
            pos + 4,
            4,
        ),
{
    reveal_with_fuel(le_value, 9);
}

/// Reads the signed offset of a relative reference.
pub fn read_offset(bytes: &[u8], pos: usize) -> (v: i32)
    requires
        pos + 4 <= bytes@.len(),
    ensures
        v == stored_offset(bytes@, pos as int),
{
    let raw: u32 = read_u32(bytes, pos);
    if raw >= 0x8000_0000 {
        let low: i32 = (raw - 0x8000_0000) as i32;
        low + i32::MIN
    } else {
        raw as i32
    }
}

/// Turns a stored offset and the position of the field that stores it into
/// the position it points to. Nothing is read and nothing is claimed.
pub fn resolve(field_pos: usize, stored: i32, len: usize) -> (r: Result<usize, ValidationError>)
    ensures
        match resolved(field_pos as int, stored as int, len as int) {
            Some(target) => r == Ok::<usize, ValidationError>(target as usize) && target
                == field_pos + stored,
            None => r == Err::<usize, ValidationError>(ValidationError::OutOfBounds),
        },
{
    if stored >= 0 {
        let forward: usize = stored as usize;
        if forward > len || field_pos > len - forward {
            Err(ValidationError::OutOfBounds)
        } else {
            Ok(field_pos + forward)
        }
    } else {
        let wide: i64 = stored as i64;
        let back: usize = (-wide) as usize;
        if back > field_pos {
            Err(ValidationError::OutOfBounds)
        } else if field_pos - back > len {
            Err(ValidationError::OutOfBounds)
        } else {
            Ok(field_pos - back)
        }
    }
}

} // verus!
