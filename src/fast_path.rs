//! Resolving a range against an input whose length is known in advance,
//! so that the selected bytes can be copied as one extent.
use vstd::prelude::*;
use crate::boundary::SliceIdx;
use crate::semantics::clamp;

verus! {

/// The absolute byte offset that boundary `b` names in an input of `len`
/// bytes, clamped to `[0, len]`.
pub open spec fn abs_offset(b: SliceIdx, len: int) -> int {
    match b {
        SliceIdx::FromStart(k) => clamp(k as int, len),
        SliceIdx::FromEnd(k) => clamp(len - k, len),
    }
}

/// The extent `(offset, length)` to copy from an input of `len` bytes, or
/// `None` when the range is empty.
pub open spec fn extent_of(start: SliceIdx, end: SliceIdx, len: int) -> Option<(int, int)> {
    let a = abs_offset(start, len);
    let b = abs_offset(end, len);
    if a < b {
        Some((a, b - a))
    } else {
        None
    }
}

/// The absolute offset of `b` in an input of `size` bytes.
fn abs_offset_of(b: SliceIdx, size: u64) -> (r: u64)
    ensures
        r == abs_offset(b, size as int),
{
    match b {
        SliceIdx::FromStart(k) => {
            if k as u64 > size {
                size
            } else {
                k as u64
            }
        },
        SliceIdx::FromEnd(k) => {
            if k as u64 >= size {
                0
            } else {
                size - k as u64
            }
        },
    }
}

/// The extent that the range `start:end` selects, counted in bytes, from an
/// input of `size` bytes: its offset and length, or `None` when nothing is
/// selected.
pub fn fast_path_extent(start: SliceIdx, end: SliceIdx, size: u64) -> (r: Option<(u64, u64)>)
    ensures
        r matches Some((off, n)) ==> extent_of(start, end, size as int) == Some(
            (off as int, n as int),
        ),
        r is None ==> extent_of(start, end, size as int) is None,
{
    let a = abs_offset_of(start, size);
    let b = abs_offset_of(end, size);
    if a < b {
        Some((a, b - a))
    } else {
        None
    }
}

} // verus!
