//! Bounds and alignment of a value of fixed width.

use vstd::prelude::*;
use crate::error::ValidationError;

verus! {

/// What stands in the way of reading `size` bytes at `pos`, aligned to
/// `align`, from an archive of `len` bytes; `None` where nothing does.
///
/// A position past the end, or at the end when there is something to read,
/// is out of bounds. A value that starts inside and ends outside overruns.
/// Alignment is looked at last.
pub open spec fn extent_fault(len: int, pos: int, size: int, align: int) -> Option<
    ValidationError,
> {
    if pos < 0 || pos > len || (pos == len && size > 0) {
        Some(ValidationError::OutOfBounds)
    } else if pos + size > len {
        Some(ValidationError::Overrun)
    } else if pos % align != 0 {
        Some(ValidationError::Misaligned)
    } else {
        None
    }
}

/// Checks that `size` bytes at `pos` lie inside an archive of `len` bytes and
/// that `pos` is a multiple of `align`.
pub fn check_extent(len: usize, pos: usize, size: usize, align: usize) -> (r: Result<
    (),
    ValidationError,
>)
    requires
        align > 0,
    ensures
        match extent_fault(len as int, pos as int, size as int, align as int) {
            Some(e) => r == Err::<(), ValidationError>(e),
            None => r is Ok,
        },
        r is Ok ==> pos + size <= len && pos % align == 0,
{
    if pos > len || (pos == len && size > 0) {
        Err(ValidationError::OutOfBounds)
    } else if size > len - pos {
        Err(ValidationError::Overrun)
    } else if pos % align != 0 {
        Err(ValidationError::Misaligned)
    } else {
        Ok(())
    }
}

} // verus!
