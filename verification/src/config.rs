//! The constants of the scan.

use vstd::prelude::*;

verus! {

/// The least number of segments that a scan is cut into.
pub const MIN_PARALLELISM: usize = 4;

/// The window that a full scan uses: how many preceding numbers a number is
/// held against.
pub const ITEM_RANGE_SIZE: usize = 100;

/// Distance from the length of the buffer back to its last byte that belongs
/// to a number, and from the last byte of a line to the first byte of the
/// next: the byte in between is the separator.
pub const MARGIN_AVOID_LINE_BREAK: usize = 2;

/// The byte that ends a line.
pub const SPLIT_MARKER: u8 = 0x0a;

/// The most decimal digits that a 128-bit number can have, and so the size of
/// the scratch storage that collects the digits of one number.
pub const STR_U128_LEN: usize = 39;

/// The number of segments to cut a scan into on a machine that can run
/// `available` tasks at once.
pub fn parallelism_for(available: usize) -> (parallelism: usize)
    ensures
        parallelism == if available < MIN_PARALLELISM {
            MIN_PARALLELISM
        } else {
            available
        },
{
    if available < MIN_PARALLELISM {
        MIN_PARALLELISM
    } else {
        available
    }
}

} // verus!
