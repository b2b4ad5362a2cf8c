//! The window of ten columns and ten rows that a front end shows.
//!
//! The window is named by its first column and its first row.  Each of the
//! two is moved by the same rules, so the functions here speak of one
//! position `top` along a side of the grid that is `len` cells long.  All
//! arithmetic wraps to 32 bits.

use crate::numeric::{wrap, wrapped};
use vstd::prelude::*;

verus! {

/// The position a page before `top`, but not before the first.
pub open spec fn page_before(top: int) -> int {
    if wrap(top - 10) > 1 {
        wrap(top - 10)
    } else {
        1
    }
}

/// The position a page after `top`; where that page would reach the end of
/// the side, the position from which a window reaches exactly to the end.
pub open spec fn page_after(top: int, len: int) -> int {
    if wrap(top + 10) >= len {
        wrap(len - 9)
    } else {
        wrap(top + 10)
    }
}

/// The position a page after `top`, but no further than the position from
/// which a window reaches exactly to the end of the side.
pub open spec fn page_after_within(top: int, len: int) -> int {
    if wrap(top + 10) < wrap(len - 9) {
        wrap(top + 10)
    } else {
        wrap(len - 9)
    }
}

/// The position one before `top`, if there is one.
pub open spec fn step_before(top: int) -> int {
    if top > 1 {
        top - 1
    } else {
        top
    }
}

/// The position one after `top`, if a window from `top` does not reach the
/// end of the side.
pub open spec fn step_after(top: int, len: int) -> int {
    if top <= wrap(len - 10) {
        wrap(top + 1)
    } else {
        top
    }
}

/// The position nearest to `top` from which a window shows the position
/// `at`.
pub open spec fn showing(top: int, at: int) -> int {
    if at < top {
        at
    } else if at >= wrap(top + 10) {
        wrap(top + wrap(at - wrap(top + 9)))
    } else {
        top
    }
}

/// The last position that a window from `top` shows.
pub open spec fn window_end(top: int, len: int) -> int {
    if wrap(top + 9) > len {
        len
    } else {
        wrap(top + 9)
    }
}

/// Moves the window a page back.
pub fn page_back(top: i32) -> (moved: i32)
    ensures
        moved == page_before(top as int),
{
    let back: i32 = wrapped(top as i128 - 10);
    if back > 1 {
        back
    } else {
        1
    }
}

/// Moves the window a page forth, as the terminal does.
pub fn page_forth(top: i32, len: i32) -> (moved: i32)
    ensures
        moved == page_after(top as int, len as int),
{
    if wrapped(top as i128 + 10) >= len {
        wrapped(len as i128 - 9)
    } else {
        wrapped(top as i128 + 10)
    }
}

/// Moves the window a page forth, as the buttons do.
pub fn page_forth_within(top: i32, len: i32) -> (moved: i32)
    ensures
        moved == page_after_within(top as int, len as int),
{
    let forth: i32 = wrapped(top as i128 + 10);
    let last: i32 = wrapped(len as i128 - 9);
    if forth < last {
        forth
    } else {
        last
    }
}

/// Moves the window one position back.
pub fn step_back(top: i32) -> (moved: i32)
    ensures
        moved == step_before(top as int),
{
    if top > 1 {
        top - 1
    } else {
        top
    }
}

/// Moves the window one position forth.
pub fn step_forth(top: i32, len: i32) -> (moved: i32)
    ensures
        moved == step_after(top as int, len as int),
{
    if top <= wrapped(len as i128 - 10) {
        wrapped(top as i128 + 1)
    } else {
        top
    }
}

/// Moves the window, as little as can be, so that it shows the position `at`.
pub fn bring_into_view(top: i32, at: i32) -> (moved: i32)
    ensures
        moved == showing(top as int, at as int),
{
    if at < top {
        at
    } else if at >= wrapped(top as i128 + 10) {
        let shift: i32 = wrapped(at as i128 - wrapped(top as i128 + 9) as i128);
        wrapped(top as i128 + shift as i128)
    } else {
        top
    }
}

/// The last position that a window from `top` shows on a side of `len`
/// cells.
pub fn last_shown(top: i32, len: i32) -> (end: i32)
    ensures
        end == window_end(top as int, len as int),
{
    let end: i32 = wrapped(top as i128 + 9);
    if end > len {
        len
    } else {
        end
    }
}

/// Where the window stays inside the side, a page back and forth move it by
/// ten positions or to the ends, and it still stays inside.
pub proof fn lemma_pages_stay_inside(top: int, len: int)
    requires
        10 <= len < i32::MAX,
        1 <= top <= len - 9,
    ensures
        1 <= page_before(top) <= top,
        top <= page_after_within(top, len) <= len - 9,
        top <= page_after(top, len) <= len,
        1 <= step_before(top) <= top,
        top <= step_after(top, len) <= len - 9,
        window_end(top, len) == top + 9,
{
    crate::numeric::lemma_wrap_same(top - 10);
    crate::numeric::lemma_wrap_same(top + 10);
    crate::numeric::lemma_wrap_same(top + 9);
    crate::numeric::lemma_wrap_same(top + 1);
    crate::numeric::lemma_wrap_same(len - 9);
    crate::numeric::lemma_wrap_same(len - 10);
}

} // verus!
