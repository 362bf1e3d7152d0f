//! Ordering of scanned tube centers: pixel coordinates found in a
//! screenshot are sorted into reading order, left to right within a
//! row, rows top to bottom, tolerating a few pixels of vertical
//! jitter within one row.
use vstd::prelude::*;

verus! {

/// The reading order of two pixel points: points whose vertical
/// distance is at most three pixels count as one row and are ordered
/// by their horizontal position; otherwise the higher point comes
/// first.
pub open spec fn point_order(a: (u32, u32), b: (u32, u32)) -> core::cmp::Ordering {
    if -3 <= a.1 as int - b.1 as int <= 3 {
        if a.0 > b.0 {
            core::cmp::Ordering::Greater
        } else if a.0 < b.0 {
            core::cmp::Ordering::Less
        } else {
            core::cmp::Ordering::Equal
        }
    } else if a.1 > b.1 {
        core::cmp::Ordering::Greater
    } else {
        core::cmp::Ordering::Less
    }
}

/// Compares two scanned tube centers in reading order, for sorting a
/// list of centers before colors are sampled.
pub fn point_cmp(a: &(u32, u32), b: &(u32, u32)) -> (r: core::cmp::Ordering)
    ensures
        r == point_order(*a, *b),
{
    let ay = a.1 as i64;
    let by = b.1 as i64;
    let dy = ay - by;
    let dy_abs = if dy < 0 {
        -dy
    } else {
        dy
    };
    if dy_abs <= 3 {
        if a.0 > b.0 {
            core::cmp::Ordering::Greater
        } else if a.0 < b.0 {
            core::cmp::Ordering::Less
        } else {
            core::cmp::Ordering::Equal
        }
    } else if a.1 > b.1 {
        core::cmp::Ordering::Greater
    } else {
        core::cmp::Ordering::Less
    }
}

} // verus!
