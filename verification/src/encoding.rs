//! Whether bytes are well-formed text.
//!
//! Validation of an archive asks of a text only that its bytes lie in the
//! archive. A caller that reads those bytes as characters asks more, and
//! asks it here.

use vstd::prelude::*;
use vstd::utf8::{
    is_continuation_byte, length_of_first_scalar, partial_valid_partial_invalid_utf8,
    partial_valid_utf8, partial_valid_utf8_extend, valid_first_scalar, valid_utf8,
};

verus! {

/// The number of bytes of the scalar that the bytes from `at` on begin
/// with; 0 where they begin with no well-formed scalar.
pub open spec fn scalar_len(bytes: Seq<u8>, at: int) -> int {
    let tail = bytes.subrange(at, bytes.len() as int);
    if valid_first_scalar(tail) {
        length_of_first_scalar(tail)
    } else {
        0
    }
}

/// Whether `byte` is one of the bytes that follow the first byte of a
/// scalar.
fn is_continuation(byte: u8) -> (b: bool)
    ensures
        b == is_continuation_byte(byte),
{
    0x80 <= byte && byte <= 0xbf
}

/// The length of the scalar that starts at `at`, in bytes: the first byte
/// says how many follow, those have to be there and be continuation bytes,
/// and what they encode must be neither encoded too long nor a surrogate.
fn first_scalar_len(bytes: &[u8], at: usize) -> (n: usize)
    requires
        at < bytes@.len(),
    ensures
        n == scalar_len(bytes@, at as int),
        at + n <= bytes@.len(),
{
    let len: usize = bytes.len();
    let ghost tail = bytes@.subrange(at as int, len as int);
    assert(tail.len() == len - at);
    assert(tail[0] == bytes@[at as int]);
    let b0: u8 = bytes[at];
    if b0 <= 0x7f {
        1
    } else if 0xc0 <= b0 && b0 <= 0xdf {
        if len - at < 2 {
            return 0;
        }
        let b1: u8 = bytes[at + 1];
        assert(tail[1] == b1);
        if !is_continuation(b1) {
            return 0;
        }
        let scalar: u32 = (((b0 & 0x1f) as u32) << 6) | ((b1 & 0x3f) as u32);
        if 0x80 <= scalar && !(0xd800 <= scalar && scalar <= 0xdfff) {
            2
        } else {
            0
        }
    } else if 0xe0 <= b0 && b0 <= 0xef {
        if len - at < 3 {
            return 0;
        }
        let b1: u8 = bytes[at + 1];
        let b2: u8 = bytes[at + 2];
        assert(tail[1] == b1 && tail[2] == b2);
        if !is_continuation(b1) || !is_continuation(b2) {
            return 0;
        }
        let scalar: u32 = (((b0 & 0x0f) as u32) << 12) | (((b1 & 0x3f) as u32) << 6) | ((b2
            & 0x3f) as u32);
        if 0x800 <= scalar && !(0xd800 <= scalar && scalar <= 0xdfff) {
            3
        } else {
            0
        }
    } else if 0xf0 <= b0 && b0 <= 0xf7 {
        if len - at < 4 {
            return 0;
        }
        let b1: u8 = bytes[at + 1];
        let b2: u8 = bytes[at + 2];
        let b3: u8 = bytes[at + 3];
        assert(tail[1] == b1 && tail[2] == b2 && tail[3] == b3);
        if !is_continuation(b1) || !is_continuation(b2) || !is_continuation(b3) {
            return 0;
        }
        let scalar: u32 = (((b0 & 0x07) as u32) << 18) | (((b1 & 0x3f) as u32) << 12) | (((b2
            & 0x3f) as u32) << 6) | ((b3 & 0x3f) as u32);
        if 0x10000 <= scalar && scalar <= 0x10ffff && !(0xd800 <= scalar && scalar <= 0xdfff) {
            4
        } else {
            0
        }
    } else {
        0
    }
}

/// Whether `bytes` are well-formed UTF-8 from the first to the last.
pub fn is_utf8(bytes: &[u8]) -> (ok: bool)
    ensures
        ok == valid_utf8(bytes@),
{
    let len: usize = bytes.len();
    let mut at: usize = 0;
    assert(bytes@.subrange(0, 0) =~= Seq::<u8>::empty());
    while at < len
        invariant
            len == bytes@.len(),
            partial_valid_utf8(bytes@, at as int),
        decreases len - at,
    {
        let n: usize = first_scalar_len(bytes, at);
        if n == 0 {
            proof {
                partial_valid_partial_invalid_utf8(bytes@, at as int);
            }
            return false;
        }
        proof {
            partial_valid_utf8_extend(bytes@, at as int);
        }
        at += n;
    }
    assert(bytes@.subrange(0, len as int) =~= bytes@);
    true
}

} // verus!
