//! Cutting the buffer into segments that end where lines end.

use vstd::prelude::*;
use crate::config::{MARGIN_AVOID_LINE_BREAK, SPLIT_MARKER};
use crate::lines::{count_delimiters, lemma_count_at_most, lemma_count_split};

verus! {

/// The position of the `n`-th separator at or after `from`, counted from one;
/// the length of the buffer where there is no such separator.
pub open spec fn nth_delimiter(buf: Seq<u8>, from: int, n: int) -> int
    decreases buf.len() - from,
{
    if n <= 0 || from >= buf.len() {
        buf.len() as int
    } else if buf[from] == SPLIT_MARKER {
        if n == 1 {
            from
        } else {
            nth_delimiter(buf, from + 1, n - 1)
        }
    } else {
        nth_delimiter(buf, from + 1, n)
    }
}

/// The last byte of the line that the `n`-th separator at or after `from`
/// ends; where there is no such separator, the last byte before the one that
/// closes the buffer.
pub open spec fn right_bound_before(buf: Seq<u8>, from: int, n: int) -> int {
    if nth_delimiter(buf, from, n) < buf.len() {
        nth_delimiter(buf, from, n) - 1
    } else {
        buf.len() - MARGIN_AVOID_LINE_BREAK
    }
}

/// The last byte of the line that holds `from`, as long as `reach`
/// separators are left at or after `from`; the last byte before the one that
/// closes the buffer where fewer are left.
pub open spec fn nominal_bound_before(buf: Seq<u8>, from: int, reach: int) -> int {
    if nth_delimiter(buf, from, reach) < buf.len() {
        nth_delimiter(buf, from, 1) - 1
    } else {
        buf.len() - MARGIN_AVOID_LINE_BREAK
    }
}

/// The byte at which the search for the end of segment `k - 1` starts:
/// `k` equal shares of the buffer from its beginning.
pub open spec fn split_point(len: nat, parallelism: nat, k: int) -> int {
    k * (len / parallelism)
}

/// The first byte of segment `k`, counted from zero: the beginning of the
/// buffer, or the byte behind the separator that ends the lines of the
/// segment before. Where the walk over the segment before reads to the end
/// of the buffer, that segment has all the lines that are left, and segment
/// `k` begins behind the buffer.
pub open spec fn segment_left(buf: Seq<u8>, window: nat, parallelism: nat, k: int) -> int {
    if k <= 0 {
        0
    } else {
        nominal_bound_before(buf, split_point(buf.len(), parallelism, k), window as int)
            + MARGIN_AVOID_LINE_BREAK
    }
}

/// The last byte that the walk over segment `k` reads: it reads on into the
/// lines of the next segment, up to the `window`-th separator at or after
/// the split point.
pub open spec fn segment_right(buf: Seq<u8>, window: nat, parallelism: nat, k: int) -> int {
    right_bound_before(buf, split_point(buf.len(), parallelism, k + 1), window as int)
}

/// Looks from `ini_pos` on for the ends of a segment, over at most `reach`
/// separators: the last byte before the first separator, which ends the
/// lines that the segment has for itself, and the last byte before the
/// `reach`-th separator, up to which its walk reads. Where fewer than `reach`
/// separators are left, both bounds are the last byte before the one that
/// closes the buffer.
///
/// A separator at the very beginning of the buffer has no byte before it, so
/// the search does not start there.
pub fn get_right_bounds(buf: &[u8], ini_pos: usize, reach: usize) -> (bounds: (usize, usize))
    requires
        buf.len() >= MARGIN_AVOID_LINE_BREAK,
        ini_pos >= 1 || buf@[0] != SPLIT_MARKER,
    ensures
        bounds.0 == nominal_bound_before(buf@, ini_pos as int, reach as int),
        bounds.1 == right_bound_before(buf@, ini_pos as int, reach as int),
{
    let file_len: usize = buf.len();
    let mut idx: usize = ini_pos;
    let mut right_bound: usize = file_len - MARGIN_AVOID_LINE_BREAK;
    let mut right_bound_overflow: usize = right_bound;
    let mut overflow_count: usize = 0;
    while idx < file_len && overflow_count < reach
        invariant
            file_len == buf@.len(),
            file_len >= MARGIN_AVOID_LINE_BREAK,
            ini_pos <= idx,
            idx >= 1 || buf@[0] != SPLIT_MARKER,
            overflow_count <= reach,
            overflow_count == 0 ==> right_bound == file_len - MARGIN_AVOID_LINE_BREAK,
            overflow_count >= 1 ==> right_bound == nth_delimiter(buf@, ini_pos as int, 1) - 1
                && nth_delimiter(buf@, ini_pos as int, 1) < file_len,
            overflow_count < reach || reach == 0 ==> right_bound_overflow == file_len
                - MARGIN_AVOID_LINE_BREAK,
            overflow_count < reach ==> nth_delimiter(buf@, ini_pos as int, reach as int)
                == nth_delimiter(buf@, idx as int, reach - overflow_count),
            overflow_count == 0 && reach >= 1 ==> nth_delimiter(buf@, ini_pos as int, 1)
                == nth_delimiter(buf@, idx as int, 1),
            overflow_count == reach && reach >= 1 ==> right_bound_overflow == nth_delimiter(
                buf@,
                ini_pos as int,
                reach as int,
            ) - 1 && nth_delimiter(buf@, ini_pos as int, reach as int) < file_len,
        decreases file_len - idx,
    {
        if buf[idx] == SPLIT_MARKER {
            overflow_count += 1;
            if overflow_count == 1 {
                right_bound = idx - 1;
            }
            if overflow_count == reach {
                right_bound_overflow = idx - 1;
            }
        }
        idx += 1;
    }
    if overflow_count < reach {
        right_bound = file_len - MARGIN_AVOID_LINE_BREAK;
    }
    (right_bound, right_bound_overflow)
}

/// Cuts the buffer into `parallelism` segments, each given by its first and
/// its last byte.
///
/// The search for the end of a segment starts at a whole number of equal
/// shares of the buffer. A segment begins right behind the separator that
/// ends the lines of the one before. Its walk reads on over the lines of the
/// next segment up to the `window`-th separator at or after the split point
/// and judges their numbers, which have no full window in the walk over the
/// next segment. Where fewer than `window` separators are left, the segment
/// has all the lines that are left and the segments behind it have none.
pub fn get_bounds(buf: &[u8], parallelism: usize, window: usize) -> (bounds: Vec<(usize, usize)>)
    requires
        parallelism >= 1,
        buf.len() >= MARGIN_AVOID_LINE_BREAK,
        parallelism <= buf.len() || buf@[0] != SPLIT_MARKER,
    ensures
        bounds@.len() == parallelism,
        forall|k: int|
            0 <= k < parallelism ==> {
                &&& (#[trigger] bounds@[k]).0 == segment_left(
                    buf@,
                    window as nat,
                    parallelism as nat,
                    k,
                )
                &&& bounds@[k].1 == segment_right(buf@, window as nat, parallelism as nat, k)
                &&& bounds@[k].0 <= buf.len()
                &&& bounds@[k].1 < buf.len()
            },
{
    let bytes_per_chunk: usize = buf.len() / parallelism;
    let mut bounds: Vec<(usize, usize)> = Vec::with_capacity(parallelism);
    let mut previous_left_bound: usize = 0;
    let mut done: usize = 0;
    while done < parallelism
        invariant
            done <= parallelism,
            1 <= parallelism,
            parallelism <= buf.len() || buf@[0] != SPLIT_MARKER,
            previous_left_bound <= buf.len(),
            buf.len() >= MARGIN_AVOID_LINE_BREAK,
            bytes_per_chunk == buf@.len() / (parallelism as nat),
            bounds@.len() == done,
            previous_left_bound == segment_left(
                buf@,
                window as nat,
                parallelism as nat,
                done as int,
            ),
            forall|k: int|
                0 <= k < done ==> {
                    &&& (#[trigger] bounds@[k]).0 == segment_left(
                        buf@,
                        window as nat,
                        parallelism as nat,
                        k,
                    )
                    &&& bounds@[k].1 == segment_right(buf@, window as nat, parallelism as nat, k)
                    &&& bounds@[k].0 <= buf.len()
                    &&& bounds@[k].1 < buf.len()
                },
        decreases parallelism - done,
    {
        let num_core: usize = done + 1;
        let left_bound: usize = previous_left_bound;
        proof {
            lemma_split_point_in_buffer(buf@.len(), parallelism as nat, num_core as int);
            lemma_bounds_in_buffer(buf@, num_core * bytes_per_chunk, window as int);
        }
        let (right_bound, right_bound_overflow) = get_right_bounds(
            buf,
            num_core * bytes_per_chunk,
            window,
        );
        previous_left_bound = right_bound + MARGIN_AVOID_LINE_BREAK;
        bounds.push((left_bound, right_bound_overflow));
        done += 1;
    }
    bounds
}

/// No split point lies outside the buffer, and none but the one of segment
/// zero lies at its beginning when each share holds a byte.
pub proof fn lemma_split_point_in_buffer(len: nat, parallelism: nat, k: int)
    requires
        1 <= parallelism,
        0 <= k <= parallelism,
    ensures
        0 <= split_point(len, parallelism, k) <= len,
        parallelism <= len && k >= 1 ==> split_point(len, parallelism, k) >= 1,
        k < parallelism ==> split_point(len, parallelism, k) <= split_point(
            len,
            parallelism,
            k + 1,
        ),
        len % parallelism == 0 ==> split_point(len, parallelism, parallelism as int) == len,
{
    let share = len / parallelism;
    assert(k * share <= parallelism * share) by (nonlinear_arith)
        requires
            0 <= k <= parallelism,
            share >= 0,
    ;
    assert(parallelism * share <= len) by (nonlinear_arith)
        requires
            share == len / parallelism,
            parallelism >= 1,
    ;
    assert(0 <= k * share) by (nonlinear_arith)
        requires
            0 <= k,
            share >= 0,
    ;
    if parallelism <= len && k >= 1 {
        assert(share >= 1) by (nonlinear_arith)
            requires
                share == len / parallelism,
                1 <= parallelism <= len,
        ;
        assert(k * share >= 1) by (nonlinear_arith)
            requires
                k >= 1,
                share >= 1,
        ;
    }
    assert(k * share <= (k + 1) * share) by (nonlinear_arith)
        requires
            share >= 0,
    ;
    if len % parallelism == 0 {
        assert(parallelism * share == len) by (nonlinear_arith)
            requires
                share == len / parallelism,
                parallelism >= 1,
                len % parallelism == 0,
        ;
    }
}

/// Both bounds lie inside the buffer, and before its last byte.
pub proof fn lemma_bounds_in_buffer(buf: Seq<u8>, from: int, reach: int)
    requires
        buf.len() >= MARGIN_AVOID_LINE_BREAK,
        from >= 0,
        from >= 1 || buf[0] != SPLIT_MARKER,
    ensures
        0 <= right_bound_before(buf, from, reach) <= buf.len() - MARGIN_AVOID_LINE_BREAK,
        0 <= nominal_bound_before(buf, from, reach) <= right_bound_before(buf, from, reach),
{
    if reach >= 1 && from <= buf.len() {
        lemma_nth_delimiter_count(buf, from, reach);
        lemma_nth_delimiter_count(buf, from, 1);
        lemma_nth_delimiter_monotone(buf, from, 1, from, reach);
    }
}

/// The byte `pos` belongs to the lines that segment `k` has for itself: it
/// lies between the first byte of the segment and the first byte of the
/// next, and so is a byte of one of its lines or the separator behind one.
pub open spec fn segment_owns(buf: Seq<u8>, window: nat, parallelism: nat, k: int, pos: int) -> bool {
    0 <= k < parallelism && segment_left(buf, window, parallelism, k) <= pos < segment_left(
        buf,
        window,
        parallelism,
        k + 1,
    )
}

/// The byte `pos` belongs to the lines of one of the segments.
pub open spec fn has_owner(buf: Seq<u8>, window: nat, parallelism: nat, pos: int) -> bool {
    exists|k: int| segment_owns(buf, window, parallelism, k, pos)
}

/// A separator that is found has one less than its number of separators
/// between the start of the search and itself; where none is found, the rest
/// of the buffer has too few.
pub proof fn lemma_nth_delimiter_count(buf: Seq<u8>, from: int, n: int)
    requires
        0 <= from <= buf.len(),
        n >= 1,
    ensures
        from <= nth_delimiter(buf, from, n) <= buf.len(),
        nth_delimiter(buf, from, n) < buf.len() ==> buf[nth_delimiter(buf, from, n)]
            == SPLIT_MARKER && count_delimiters(buf, from, nth_delimiter(buf, from, n)) == n - 1,
        nth_delimiter(buf, from, n) == buf.len() ==> count_delimiters(
            buf,
            from,
            buf.len() as int,
        ) < n,
    decreases buf.len() - from,
{
    let len = buf.len() as int;
    if from < len {
        let step = if buf[from] == SPLIT_MARKER {
            1nat
        } else {
            0nat
        };
        assert(count_delimiters(buf, from, from + 1) == count_delimiters(buf, from, from) + step);
        if buf[from] == SPLIT_MARKER {
            if n > 1 {
                lemma_nth_delimiter_count(buf, from + 1, n - 1);
                let found = nth_delimiter(buf, from + 1, n - 1);
                lemma_count_split(buf, from, from + 1, found);
            }
        } else {
            lemma_nth_delimiter_count(buf, from + 1, n);
            let found = nth_delimiter(buf, from + 1, n);
            lemma_count_split(buf, from, from + 1, found);
        }
    }
}

/// A search that starts later, or looks for a later separator, does not end
/// earlier.
pub proof fn lemma_nth_delimiter_monotone(buf: Seq<u8>, from: int, n: int, later: int, more: int)
    requires
        0 <= from <= later,
        1 <= n <= more,
    ensures
        nth_delimiter(buf, from, n) <= nth_delimiter(buf, later, more),
{
    let len = buf.len() as int;
    if later >= len {
        if from <= len {
            lemma_nth_delimiter_count(buf, from, n);
        }
    } else {
        lemma_nth_delimiter_count(buf, from, n);
        lemma_nth_delimiter_count(buf, later, more);
        let first = nth_delimiter(buf, from, n);
        let second = nth_delimiter(buf, later, more);
        if second < first {
            lemma_count_split(buf, from, later, second);
            lemma_count_split(buf, from, second, second + 1);
            lemma_count_split(buf, from, second + 1, first);
            assert(count_delimiters(buf, second, second + 1) == count_delimiters(
                buf,
                second,
                second,
            ) + 1);
        }
    }
}

/// Bounds follow the order of the searches that give them.
pub proof fn lemma_right_bound_monotone(buf: Seq<u8>, from: int, n: int, later: int, more: int)
    requires
        0 <= from <= later,
        0 <= n <= more,
        n == 0 ==> more == 0,
    ensures
        right_bound_before(buf, from, n) <= right_bound_before(buf, later, more),
{
    if n >= 1 {
        lemma_nth_delimiter_monotone(buf, from, n, later, more);
    }
}

/// So do the ends of the lines that the segments have for themselves.
pub proof fn lemma_nominal_bound_monotone(buf: Seq<u8>, from: int, later: int, reach: int)
    requires
        0 <= from <= later,
    ensures
        nominal_bound_before(buf, from, reach) <= nominal_bound_before(buf, later, reach),
{
    if reach >= 1 {
        lemma_nth_delimiter_monotone(buf, from, reach, later, reach);
        lemma_nth_delimiter_monotone(buf, from, 1, later, 1);
        lemma_nth_delimiter_monotone(buf, from, 1, from, reach);
        if from <= buf.len() {
            lemma_nth_delimiter_count(buf, from, 1);
        }
    }
}

/// No segment begins outside the buffer.
pub proof fn lemma_segment_left_in_buffer(buf: Seq<u8>, window: nat, parallelism: nat, k: int)
    requires
        1 <= parallelism,
        0 <= k <= parallelism,
    ensures
        0 <= segment_left(buf, window, parallelism, k) <= buf.len(),
{
    if k >= 1 {
        let split = split_point(buf.len(), parallelism, k);
        lemma_split_point_in_buffer(buf.len(), parallelism, k);
        lemma_nth_delimiter_count(buf, split, 1);
        if window >= 1 {
            lemma_nth_delimiter_monotone(buf, split, 1, split, window as int);
        }
    }
}

/// The first bytes of the segments follow each other in the order of the
/// segments.
pub proof fn lemma_segment_left_monotone(
    buf: Seq<u8>,
    window: nat,
    parallelism: nat,
    j: int,
    k: int,
)
    requires
        1 <= parallelism,
        0 <= j <= k <= parallelism,
    ensures
        0 <= segment_left(buf, window, parallelism, j) <= segment_left(
            buf,
            window,
            parallelism,
            k,
        ) <= buf.len(),
    decreases k - j,
{
    let len = buf.len();
    lemma_segment_left_in_buffer(buf, window, parallelism, j);
    lemma_segment_left_in_buffer(buf, window, parallelism, k);
    if j < k {
        if j >= 1 {
            lemma_split_point_in_buffer(len, parallelism, j);
            lemma_nominal_bound_monotone(
                buf,
                split_point(len, parallelism, j),
                split_point(len, parallelism, j + 1),
                window as int,
            );
        }
        lemma_segment_left_monotone(buf, window, parallelism, j + 1, k);
    }
}

/// A byte before the first byte of segment `k` belongs to one of the
/// segments before it.
proof fn lemma_owner_exists(buf: Seq<u8>, window: nat, parallelism: nat, pos: int, k: int)
    requires
        1 <= parallelism,
        1 <= k <= parallelism,
        0 <= pos < segment_left(buf, window, parallelism, k),
    ensures
        exists|j: int| 0 <= j < k && segment_owns(buf, window, parallelism, j, pos),
    decreases k,
{
    if pos >= segment_left(buf, window, parallelism, k - 1) {
        assert(segment_owns(buf, window, parallelism, k - 1, pos));
    } else {
        lemma_owner_exists(buf, window, parallelism, pos, k - 1);
    }
}

/// The walk over the last segment reads to the end of the buffer, and the
/// lines of the last segment end there: the last search finds fewer than
/// `window` separators.
pub open spec fn reaches_end(buf: Seq<u8>, window: nat, parallelism: nat) -> bool {
    nth_delimiter(buf, split_point(buf.len(), parallelism, parallelism as int), window as int)
        >= buf.len()
}

/// The last walk reads to the end of the buffer whenever the buffer is cut
/// into whole shares, and whenever there are no more segments than the
/// window is long: what is left behind the last split point is then too
/// short for `window` separators.
pub proof fn lemma_reaches_end(buf: Seq<u8>, window: nat, parallelism: nat)
    requires
        1 <= parallelism,
        buf.len() % parallelism == 0 || parallelism <= window,
    ensures
        reaches_end(buf, window, parallelism),
{
    let len = buf.len();
    let split = split_point(len, parallelism, parallelism as int);
    lemma_split_point_in_buffer(len, parallelism, parallelism as int);
    if len % parallelism != 0 {
        lemma_nth_delimiter_count(buf, split, window as int);
        let found = nth_delimiter(buf, split, window as int);
        if found < len {
            lemma_count_at_most(buf, split, found);
            assert(len - split < parallelism) by (nonlinear_arith)
                requires
                    split == parallelism * (len / parallelism),
                    parallelism >= 1,
            ;
        }
    }
}

/// The lines that the segments have for themselves lie one behind the other
/// from the beginning of the buffer, and every byte up to the end of the last
/// of them belongs to exactly one segment. Each segment but the first begins
/// right behind a separator, or at the end of the buffer, and each walk ends
/// right before a separator, or before the byte that closes the buffer.
/// Where the last walk reads to the end of the buffer, the segments cover
/// the whole buffer; it does where the shares are whole, and where there are
/// no more segments than the window is long.
pub proof fn lemma_partition_coverage(buf: Seq<u8>, window: nat, parallelism: nat)
    requires
        1 <= parallelism,
    ensures
        segment_left(buf, window, parallelism, 0) == 0,
        forall|k: int|
            0 <= k < parallelism ==> #[trigger] segment_left(buf, window, parallelism, k)
                <= segment_left(buf, window, parallelism, k + 1) <= buf.len(),
        forall|k: int|
            1 <= k <= parallelism ==> #[trigger] segment_left(buf, window, parallelism, k)
                == buf.len() || (segment_left(buf, window, parallelism, k) >= 1 && buf[segment_left(
                buf,
                window,
                parallelism,
                k,
            ) - 1] == SPLIT_MARKER),
        forall|k: int|
            0 <= k < parallelism ==> #[trigger] segment_right(buf, window, parallelism, k) + 1
                == buf.len() - 1 || (0 <= segment_right(buf, window, parallelism, k) + 1
                < buf.len() && buf[segment_right(buf, window, parallelism, k) + 1]
                == SPLIT_MARKER),
        forall|pos: int|
            0 <= pos < segment_left(buf, window, parallelism, parallelism as int)
                ==> #[trigger] has_owner(buf, window, parallelism, pos),
        forall|pos: int, j: int, k: int|
            segment_owns(buf, window, parallelism, j, pos) && segment_owns(
                buf,
                window,
                parallelism,
                k,
                pos,
            ) ==> j == k,
        reaches_end(buf, window, parallelism) ==> segment_left(
            buf,
            window,
            parallelism,
            parallelism as int,
        ) == buf.len() && segment_right(buf, window, parallelism, parallelism - 1) == buf.len()
            - MARGIN_AVOID_LINE_BREAK,
        buf.len() % parallelism == 0 || parallelism <= window ==> reaches_end(
            buf,
            window,
            parallelism,
        ),
{
    let len = buf.len();
    if buf.len() % parallelism == 0 || parallelism <= window {
        lemma_reaches_end(buf, window, parallelism);
    }
    assert forall|k: int| 0 <= k < parallelism implies #[trigger] segment_left(
        buf,
        window,
        parallelism,
        k,
    ) <= segment_left(buf, window, parallelism, k + 1) <= buf.len() by {
        lemma_segment_left_monotone(buf, window, parallelism, k, k + 1);
    }
    assert forall|k: int| 1 <= k <= parallelism implies #[trigger] segment_left(
        buf,
        window,
        parallelism,
        k,
    ) == buf.len() || (segment_left(buf, window, parallelism, k) >= 1 && buf[segment_left(
        buf,
        window,
        parallelism,
        k,
    ) - 1] == SPLIT_MARKER) by {
        let split = split_point(len, parallelism, k);
        lemma_split_point_in_buffer(len, parallelism, k);
        lemma_nth_delimiter_count(buf, split, 1);
        if window >= 1 {
            lemma_nth_delimiter_monotone(buf, split, 1, split, window as int);
        }
    }
    assert forall|k: int| 0 <= k < parallelism implies #[trigger] segment_right(
        buf,
        window,
        parallelism,
        k,
    ) + 1 == buf.len() - 1 || (0 <= segment_right(buf, window, parallelism, k) + 1 < buf.len()
        && buf[segment_right(buf, window, parallelism, k) + 1] == SPLIT_MARKER) by {
        lemma_split_point_in_buffer(len, parallelism, k + 1);
        if window >= 1 {
            lemma_nth_delimiter_count(buf, split_point(len, parallelism, k + 1), window as int);
        }
    }
    assert forall|pos: int|
        0 <= pos < segment_left(
            buf,
            window,
            parallelism,
            parallelism as int,
        ) implies #[trigger] has_owner(buf, window, parallelism, pos) by {
        lemma_owner_exists(buf, window, parallelism, pos, parallelism as int);
    }
    assert forall|pos: int, j: int, k: int|
        segment_owns(buf, window, parallelism, j, pos) && segment_owns(
            buf,
            window,
            parallelism,
            k,
            pos,
        ) implies j == k by {
        if j < k {
            lemma_segment_left_monotone(buf, window, parallelism, j + 1, k);
        }
        if k < j {
            lemma_segment_left_monotone(buf, window, parallelism, k + 1, j);
        }
    }
}

} // verus!
