//! Which of the anomalies of the whole buffer a scan in several segments
//! finds.

use vstd::prelude::*;
use crate::anomaly::{anomalies_between, is_anomaly, lemma_no_anomaly_before_window};
use crate::config::SPLIT_MARKER;
use crate::error::ScanError;
use crate::lines::{
    count_delimiters, lemma_count_in_subrange, lemma_count_split, lemma_lines_len,
    lemma_lines_of_block, lines,
};
use crate::partition::{
    lemma_bounds_in_buffer, lemma_nth_delimiter_count, lemma_nth_delimiter_monotone,
    lemma_right_bound_monotone, lemma_segment_left_monotone, lemma_split_point_in_buffer,
    nominal_bound_before, nth_delimiter, reaches_end, right_bound_before, segment_left,
    segment_right, split_point,
};
use crate::scan::{
    merged_outcome, scan_outcome, segment_outcomes, text, too_short, whole_outcome,
};
use crate::scanner::{line_value, lines_valid, numbers_of, segment_outcome};

verus! {

/// Two outcomes fail alike or hold the same anomalies, each as often as the
/// other, in whatever order.
pub open spec fn same_anomalies(
    one: Result<Seq<u128>, ScanError>,
    other: Result<Seq<u128>, ScanError>,
) -> bool {
    match (one, other) {
        (Ok(found), Ok(also)) => found.to_multiset() == also.to_multiset(),
        (Err(e), Err(f)) => e == f,
        _ => false,
    }
}

/// A buffer that a scan cuts into segments: it has room for a line, its last
/// byte closes its last line, and it does not begin with a separator.
spec fn well_closed(buf: Seq<u8>) -> bool {
    buf.len() >= 2 && buf.last() == SPLIT_MARKER && buf[0] != SPLIT_MARKER
}

/// The numbers of the buffer in the order in which they stand there.
pub open spec fn stream(buf: Seq<u8>) -> Seq<u128> {
    numbers_of(lines(text(buf)))
}

/// The number of lines of the buffer that end before the byte `pos`: the
/// position in the stream of the number whose line holds `pos`.
pub open spec fn line_index(buf: Seq<u8>, pos: int) -> int {
    count_delimiters(buf, 0, pos) as int
}

/// The position in the stream of the first number of segment `k`.
pub open spec fn first_line(buf: Seq<u8>, window: nat, parallelism: nat, k: int) -> int {
    line_index(buf, segment_left(buf, window, parallelism, k))
}

/// The number that no walk judges where segment `k` begins is no anomaly.
///
/// The walk over the segment before reads on over the first `window - 1`
/// lines of segment `k` and judges their numbers. The walk over segment `k`
/// judges its numbers from the one at place `window` on, counted from zero.
/// The number at place `window - 1` is judged by neither. Without a window
/// no walk reads on and no number is left out.
pub open spec fn boundary_number_regular(buf: Seq<u8>, window: nat, parallelism: nat, k: int) -> bool {
    window == 0 || !is_anomaly(
        stream(buf),
        window,
        first_line(buf, window, parallelism, k) + window - 1,
    )
}

/// None of the numbers that fall between two segments is an anomaly.
pub open spec fn boundaries_regular(buf: Seq<u8>, window: nat, parallelism: nat) -> bool {
    forall|k: int|
        1 <= k < parallelism ==> #[trigger] boundary_number_regular(buf, window, parallelism, k)
}

/// The place falls between two segments: it is the place `window - 1` of a
/// segment but the first, which no walk judges.
pub open spec fn falls_between(buf: Seq<u8>, window: nat, parallelism: nat, place: int) -> bool {
    window >= 1 && exists|k: int|
        1 <= k < parallelism && place == #[trigger] first_line(buf, window, parallelism, k)
            + window - 1
}

/// The anomalies at the places from `lo` up to, not including, `hi` that do
/// not fall between two segments: the one latest in the stream first.
pub open spec fn judged_anomalies(
    buf: Seq<u8>,
    window: nat,
    parallelism: nat,
    lo: int,
    hi: int,
) -> Seq<u128>
    decreases hi - lo,
{
    if lo >= hi {
        Seq::empty()
    } else {
        let later = judged_anomalies(buf, window, parallelism, lo + 1, hi);
        if is_anomaly(stream(buf), window, lo) && !falls_between(buf, window, parallelism, lo) {
            later.push(stream(buf)[lo])
        } else {
            later
        }
    }
}

/// What the walks over the segments of a buffer find between them when the
/// last of them reads to the end of the buffer: what the scan of the whole
/// buffer gives, but for the anomalies that fall between two segments.
pub open spec fn judged_outcome(buf: Seq<u8>, window: nat, parallelism: nat) -> Result<
    Seq<u128>,
    ScanError,
> {
    match whole_outcome(buf, window) {
        Ok(_) => Ok(judged_anomalies(buf, window, parallelism, 0, stream(buf).len() as int)),
        Err(e) => Err(e),
    }
}

/// How many lines from the beginning of the buffer the first `k` segments
/// have read between them.
spec fn lines_read(buf: Seq<u8>, window: nat, parallelism: nat, k: int) -> int {
    if k <= 0 {
        0
    } else {
        line_index(buf, segment_right(buf, window, parallelism, k - 1) + 1) + 1
    }
}

/// The first `upto` lines of the buffer all stand for numbers.
spec fn valid_before(buf: Seq<u8>, upto: int) -> bool {
    forall|i: int| 0 <= i < upto ==> line_value(#[trigger] lines(text(buf))[i]).is_some()
}

/// What the first `k` segments of a scan give between them.
spec fn outcome_before(buf: Seq<u8>, window: nat, parallelism: nat, k: int) -> Result<
    Seq<u128>,
    ScanError,
> {
    merged_outcome(segment_outcomes(buf, window, parallelism).take(k))
}

/// The count of separators before a byte grows with the byte.
proof fn lemma_line_index_monotone(buf: Seq<u8>, pos: int, later: int)
    requires
        0 <= pos <= later,
    ensures
        0 <= line_index(buf, pos) <= line_index(buf, later),
{
    lemma_count_split(buf, 0, pos, later);
}

/// The byte behind a separator lies one line further on.
proof fn lemma_line_index_behind(buf: Seq<u8>, pos: int)
    requires
        0 <= pos < buf.len(),
        buf[pos] == SPLIT_MARKER,
    ensures
        line_index(buf, pos + 1) == line_index(buf, pos) + 1,
{
}

/// The buffer has as many lines as it has separators.
proof fn lemma_line_count(buf: Seq<u8>)
    requires
        well_closed(buf),
    ensures
        lines(text(buf)).len() == line_index(buf, buf.len() as int),
{
    let len = buf.len() as int;
    lemma_lines_len(text(buf));
    lemma_count_in_subrange(buf, 0, len - 1, 0, len - 1);
    lemma_line_index_behind(buf, len - 1);
}

/// Where the search from a split point ends: the segment that the split
/// point opens begins behind a separator, the walk before it ends at one,
/// and that walk reads the lines up to the last but one before the window of
/// the first number of the new segment is full, or all lines of the buffer.
proof fn lemma_cut(buf: Seq<u8>, window: nat, split: int)
    requires
        well_closed(buf),
        window >= 1,
        0 <= split <= buf.len(),
    ensures
        ({
            let left = nominal_bound_before(buf, split, window as int) + 2;
            let end = right_bound_before(buf, split, window as int) + 1;
            let last = line_index(buf, buf.len() as int);
            &&& 1 <= left <= buf.len()
            &&& buf[left - 1] == SPLIT_MARKER
            &&& left - 1 <= end <= buf.len() - 1
            &&& buf[end] == SPLIT_MARKER
            &&& line_index(buf, end) + 1 == if line_index(buf, left) + window - 1 <= last {
                line_index(buf, left) + window - 1
            } else {
                last
            }
        }),
{
    let len = buf.len() as int;
    let reach = window as int;
    lemma_nth_delimiter_count(buf, split, 1);
    lemma_nth_delimiter_count(buf, split, reach);
    lemma_nth_delimiter_monotone(buf, split, 1, split, reach);
    let first = nth_delimiter(buf, split, 1);
    let far = nth_delimiter(buf, split, reach);
    lemma_line_index_behind(buf, len - 1);
    if far < len {
        lemma_count_split(buf, 0, split, first);
        lemma_count_split(buf, 0, split, far);
        lemma_line_index_behind(buf, first);
        lemma_line_index_behind(buf, far);
        lemma_line_index_monotone(buf, far + 1, len);
    }
}

/// What the lines of a part of a list of lines stand for.
proof fn lemma_numbers_of_block(all: Seq<Seq<u8>>, from: int, upto: int)
    requires
        0 <= from <= upto <= all.len(),
    ensures
        numbers_of(all.subrange(from, upto)) == numbers_of(all).subrange(from, upto),
        lines_valid(all.subrange(from, upto)) <==> forall|i: int|
            from <= i < upto ==> line_value(#[trigger] all[i]).is_some(),
{
    let part = all.subrange(from, upto);
    assert(numbers_of(part) =~= numbers_of(all).subrange(from, upto));
    if lines_valid(part) {
        assert forall|i: int| from <= i < upto implies line_value(#[trigger] all[i]).is_some() by {
            assert(part[i - from] == all[i]);
        }
    }
}

/// The anomalies of a part of a stream, judged within the part, are the
/// anomalies of the stream from the first number of the part that has its
/// window within the part.
proof fn lemma_anomalies_in_block(
    numbers: Seq<u128>,
    window: nat,
    from: int,
    upto: int,
    lo: int,
)
    requires
        0 <= from <= upto <= numbers.len(),
        window <= lo,
    ensures
        anomalies_between(numbers.subrange(from, upto), window, lo, upto - from)
            == anomalies_between(numbers, window, from + lo, upto),
    decreases upto - from - lo,
{
    if lo < upto - from {
        let part = numbers.subrange(from, upto);
        lemma_anomalies_in_block(numbers, window, from, upto, lo + 1);
        assert(part.subrange(lo - window, lo) =~= numbers.subrange(from + lo - window, from + lo));
    }
}

/// The anomalies of a range are those of its later part followed by those of
/// its earlier part.
proof fn lemma_anomalies_joined(numbers: Seq<u128>, window: nat, lo: int, mid: int, hi: int)
    requires
        lo <= mid <= hi,
    ensures
        anomalies_between(numbers, window, lo, hi) == anomalies_between(numbers, window, mid, hi)
            + anomalies_between(numbers, window, lo, mid),
    decreases mid - lo,
{
    let later = anomalies_between(numbers, window, mid, hi);
    if lo < mid {
        lemma_anomalies_joined(numbers, window, lo + 1, mid, hi);
        let earlier = anomalies_between(numbers, window, lo + 1, mid);
        if is_anomaly(numbers, window, lo) {
            assert((later + earlier).push(numbers[lo]) =~= later + earlier.push(numbers[lo]));
        }
    } else {
        assert(later + Seq::<u128>::empty() =~= later);
    }
}

/// What segment `k` gives, in terms of the lines and the stream of the whole
/// buffer: it reads the lines from its first up to where the lines read so
/// far end, and judges the numbers behind the first that it cannot judge.
proof fn lemma_segment_gives(buf: Seq<u8>, window: nat, parallelism: nat, k: int)
    requires
        well_closed(buf),
        window >= 1,
        1 <= parallelism,
        0 <= k < parallelism,
    ensures
        ({
            let from = first_line(buf, window, parallelism, k);
            let read = lines_read(buf, window, parallelism, k);
            let upto = lines_read(buf, window, parallelism, k + 1);
            let gives = segment_outcomes(buf, window, parallelism)[k];
            let count = lines(text(buf)).len() as int;
            &&& 0 <= from <= read <= upto <= count
            &&& k >= 1 ==> from >= 1 && read == if from + window - 1 <= count {
                from + window - 1
            } else {
                count
            }
            &&& (forall|i: int|
                from <= i < upto ==> line_value(#[trigger] lines(text(buf))[i]).is_some())
                ==> gives == Ok::<Seq<u128>, ScanError>(
                anomalies_between(stream(buf), window, from + window, upto),
            )
            &&& !(forall|i: int|
                from <= i < upto ==> line_value(#[trigger] lines(text(buf))[i]).is_some())
                ==> gives == Err::<Seq<u128>, ScanError>(ScanError::MalformedNumber)
        }),
{
    let len = buf.len() as int;
    let reach = window as int;
    let all = lines(text(buf));
    let left = segment_left(buf, window, parallelism, k);
    let end = segment_right(buf, window, parallelism, k) + 1;
    let from = first_line(buf, window, parallelism, k);
    let upto = lines_read(buf, window, parallelism, k + 1);
    let next = split_point(buf.len(), parallelism, k + 1);
    lemma_split_point_in_buffer(buf.len(), parallelism, k);
    lemma_split_point_in_buffer(buf.len(), parallelism, k + 1);
    lemma_cut(buf, window, next);
    lemma_line_count(buf);
    if k >= 1 {
        let split = split_point(buf.len(), parallelism, k);
        lemma_cut(buf, window, split);
        lemma_bounds_in_buffer(buf, split, reach);
        lemma_right_bound_monotone(buf, split, reach, next, reach);
        lemma_line_index_monotone(
            buf,
            segment_right(buf, window, parallelism, k - 1) + 1,
            end,
        );
        lemma_line_index_behind(buf, left - 1);
        lemma_line_index_monotone(buf, 0, left - 1);
        lemma_line_index_monotone(buf, left, len);
    }
    lemma_line_index_monotone(buf, 0, end);
    lemma_line_index_behind(buf, end);
    lemma_line_index_monotone(buf, end + 1, len);
    if left <= end {
        lemma_line_index_monotone(buf, left, end);
        let bytes = buf.subrange(left, end);
        assert(bytes =~= text(buf).subrange(left, end));
        lemma_lines_of_block(text(buf), left, end);
        lemma_count_in_subrange(buf, 0, len - 1, 0, left);
        lemma_count_in_subrange(buf, 0, len - 1, 0, end);
        assert(lines(bytes) == all.subrange(from, upto));
        lemma_numbers_of_block(all, from, upto);
        let part = stream(buf).subrange(from, upto);
        lemma_no_anomaly_before_window(part, window, 0, part.len() as int);
        lemma_anomalies_in_block(stream(buf), window, from, upto, window as int);
    } else {
        assert(from == upto);
    }
}

/// The first lines of the segments follow each other in the order of the
/// segments.
proof fn lemma_first_line_monotone(buf: Seq<u8>, window: nat, parallelism: nat, j: int, k: int)
    requires
        1 <= parallelism,
        0 <= j <= k <= parallelism,
    ensures
        first_line(buf, window, parallelism, j) <= first_line(buf, window, parallelism, k),
{
    lemma_segment_left_monotone(buf, window, parallelism, j, k);
    lemma_line_index_monotone(
        buf,
        segment_left(buf, window, parallelism, j),
        segment_left(buf, window, parallelism, k),
    );
}

/// Where no place falls between two segments, every anomaly is judged.
proof fn lemma_judged_free(buf: Seq<u8>, window: nat, parallelism: nat, lo: int, hi: int)
    requires
        forall|i: int| lo <= i < hi ==> !falls_between(buf, window, parallelism, i),
    ensures
        judged_anomalies(buf, window, parallelism, lo, hi) == anomalies_between(
            stream(buf),
            window,
            lo,
            hi,
        ),
    decreases hi - lo,
{
    if lo < hi {
        lemma_judged_free(buf, window, parallelism, lo + 1, hi);
    }
}

/// What is judged in a range is what is judged in its later part followed
/// by what is judged in its earlier part.
proof fn lemma_judged_joined(
    buf: Seq<u8>,
    window: nat,
    parallelism: nat,
    lo: int,
    mid: int,
    hi: int,
)
    requires
        lo <= mid <= hi,
    ensures
        judged_anomalies(buf, window, parallelism, lo, hi) == judged_anomalies(
            buf,
            window,
            parallelism,
            mid,
            hi,
        ) + judged_anomalies(buf, window, parallelism, lo, mid),
    decreases mid - lo,
{
    let later = judged_anomalies(buf, window, parallelism, mid, hi);
    if lo < mid {
        lemma_judged_joined(buf, window, parallelism, lo + 1, mid, hi);
        let earlier = judged_anomalies(buf, window, parallelism, lo + 1, mid);
        let number = stream(buf)[lo];
        assert((later + earlier).push(number) =~= later + earlier.push(number));
    } else {
        assert(later + Seq::<u128>::empty() =~= later);
    }
}

/// No number before the first full window is an anomaly, judged or not.
proof fn lemma_judged_before_window(buf: Seq<u8>, window: nat, parallelism: nat, lo: int, hi: int)
    requires
        hi <= window,
    ensures
        judged_anomalies(buf, window, parallelism, lo, hi) == Seq::<u128>::empty(),
    decreases hi - lo,
{
    if lo < hi {
        lemma_judged_before_window(buf, window, parallelism, lo + 1, hi);
    }
}

/// Where none of the numbers between two segments is an anomaly, every
/// anomaly is judged.
proof fn lemma_judged_is_all(buf: Seq<u8>, window: nat, parallelism: nat, lo: int, hi: int)
    requires
        boundaries_regular(buf, window, parallelism),
    ensures
        judged_anomalies(buf, window, parallelism, lo, hi) == anomalies_between(
            stream(buf),
            window,
            lo,
            hi,
        ),
    decreases hi - lo,
{
    if lo < hi {
        lemma_judged_is_all(buf, window, parallelism, lo + 1, hi);
        if is_anomaly(stream(buf), window, lo) && falls_between(buf, window, parallelism, lo) {
            let k = choose|k: int|
                1 <= k < parallelism && lo == #[trigger] first_line(buf, window, parallelism, k)
                    + window - 1;
            assert(boundary_number_regular(buf, window, parallelism, k));
        }
    }
}

/// The numbers that segment `j` judges do not fall between two segments.
proof fn lemma_segment_judges_free(buf: Seq<u8>, window: nat, parallelism: nat, j: int)
    requires
        well_closed(buf),
        window >= 1,
        1 <= parallelism,
        0 <= j < parallelism,
    ensures
        forall|i: int|
            first_line(buf, window, parallelism, j) + window <= i < lines_read(
                buf,
                window,
                parallelism,
                j + 1,
            ) ==> !falls_between(buf, window, parallelism, i),
{
    let from = first_line(buf, window, parallelism, j);
    let upto = lines_read(buf, window, parallelism, j + 1);
    lemma_segment_gives(buf, window, parallelism, j);
    if j + 1 < parallelism {
        lemma_segment_gives(buf, window, parallelism, j + 1);
    }
    assert forall|i: int| from + window <= i < upto implies !falls_between(
        buf,
        window,
        parallelism,
        i,
    ) by {
        assert forall|k: int| 1 <= k < parallelism implies i != #[trigger] first_line(
            buf,
            window,
            parallelism,
            k,
        ) + window - 1 by {
            if k <= j {
                lemma_first_line_monotone(buf, window, parallelism, k, j);
            } else {
                lemma_first_line_monotone(buf, window, parallelism, j + 1, k);
            }
        }
    }
}

/// The anomalies that segment `k - 1` adds to those of the segments before
/// it make up what is judged among all the numbers read so far.
proof fn lemma_judged_so_far(
    buf: Seq<u8>,
    window: nat,
    parallelism: nat,
    k: int,
    found: Seq<u128>,
    more: Seq<u128>,
)
    requires
        well_closed(buf),
        window >= 1,
        lines(text(buf)).len() > window,
        1 <= parallelism,
        1 <= k <= parallelism,
        found.to_multiset() == judged_anomalies(
            buf,
            window,
            parallelism,
            window as int,
            lines_read(buf, window, parallelism, k - 1),
        ).to_multiset(),
        more == anomalies_between(
            stream(buf),
            window,
            first_line(buf, window, parallelism, k - 1) + window,
            lines_read(buf, window, parallelism, k),
        ),
    ensures
        (found + more).to_multiset() == judged_anomalies(
            buf,
            window,
            parallelism,
            window as int,
            lines_read(buf, window, parallelism, k),
        ).to_multiset(),
{
    let j = k - 1;
    lemma_segment_gives(buf, window, parallelism, j);
    lemma_segment_judges_free(buf, window, parallelism, j);
    let from = first_line(buf, window, parallelism, j);
    let read = lines_read(buf, window, parallelism, j);
    let upto = lines_read(buf, window, parallelism, k);
    let judged = judged_anomalies(buf, window, parallelism, window as int, read);
    vstd::seq_lib::lemma_multiset_commutative(found, more);
    if j == 0 {
        assert(judged == Seq::<u128>::empty());
        lemma_judged_free(buf, window, parallelism, window as int, upto);
        vstd::seq_lib::lemma_multiset_commutative(judged, more);
        assert(judged + more =~= more);
    } else if from + window - 1 < lines(text(buf)).len() && upto > read {
        // One number lies between what was judged and what this segment
        // judges.
        assert(falls_between(buf, window, parallelism, read));
        assert(judged_anomalies(buf, window, parallelism, read + 1, read + 1) == Seq::<
            u128,
        >::empty());
        assert(judged_anomalies(buf, window, parallelism, read, read + 1) == Seq::<
            u128,
        >::empty());
        lemma_judged_free(buf, window, parallelism, read + 1, upto);
        lemma_judged_joined(buf, window, parallelism, window as int, read, upto);
        lemma_judged_joined(buf, window, parallelism, read, read + 1, upto);
        assert(more + Seq::<u128>::empty() =~= more);
        vstd::seq_lib::lemma_multiset_commutative(more, judged);
    } else {
        assert(more == Seq::<u128>::empty());
        assert(found + more =~= found);
    }
}

/// What the first `k` segments give between them: a failure where one of
/// the lines that they have read stands for no number, and otherwise every
/// anomaly among the numbers that they have read, each once, but for those
/// that fall between two segments.
proof fn lemma_outcome_before(buf: Seq<u8>, window: nat, parallelism: nat, k: int)
    requires
        well_closed(buf),
        window >= 1,
        lines(text(buf)).len() > window,
        1 <= parallelism,
        0 <= k <= parallelism,
    ensures
        !valid_before(buf, lines_read(buf, window, parallelism, k)) ==> outcome_before(
            buf,
            window,
            parallelism,
            k,
        ) == Err::<Seq<u128>, ScanError>(ScanError::MalformedNumber),
        valid_before(buf, lines_read(buf, window, parallelism, k)) ==> same_anomalies(
            outcome_before(buf, window, parallelism, k),
            Ok(
                judged_anomalies(
                    buf,
                    window,
                    parallelism,
                    window as int,
                    lines_read(buf, window, parallelism, k),
                ),
            ),
        ),
    decreases k,
{
    let outcomes = segment_outcomes(buf, window, parallelism);
    if k == 0 {
        assert(outcomes.take(0) =~= Seq::empty());
        assert(judged_anomalies(buf, window, parallelism, window as int, 0) == Seq::<
            u128,
        >::empty());
    } else {
        let j = k - 1;
        lemma_outcome_before(buf, window, parallelism, j);
        lemma_segment_gives(buf, window, parallelism, j);
        assert(outcomes.take(k).drop_last() =~= outcomes.take(j));
        assert(outcomes.take(k).last() == outcomes[j]);
        let from = first_line(buf, window, parallelism, j);
        let read = lines_read(buf, window, parallelism, j);
        let upto = lines_read(buf, window, parallelism, k);
        if valid_before(buf, upto) {
            assert(valid_before(buf, read));
            let found = outcome_before(buf, window, parallelism, j).unwrap();
            let more = anomalies_between(stream(buf), window, from + window, upto);
            assert(outcome_before(buf, window, parallelism, k) == Ok::<Seq<u128>, ScanError>(
                found + more,
            ));
            lemma_judged_so_far(buf, window, parallelism, k, found, more);
        } else {
            if valid_before(buf, read) {
                let bad = choose|i: int|
                    0 <= i < upto && line_value(#[trigger] lines(text(buf))[i]).is_none();
                assert(from <= bad < upto);
            }
        }
    }
}

/// Without a window the first segment is the whole buffer and the others
/// hold nothing.
proof fn lemma_without_window(buf: Seq<u8>, parallelism: nat, k: int)
    requires
        buf.len() >= 2,
        1 <= parallelism,
        1 <= k <= parallelism,
    ensures
        outcome_before(buf, 0, parallelism, k) == segment_outcome(text(buf), 0),
    decreases k,
{
    let outcomes = segment_outcomes(buf, 0, parallelism);
    assert(outcomes.take(k).drop_last() =~= outcomes.take(k - 1));
    assert(outcomes.take(k).last() == outcomes[k - 1]);
    if k == 1 {
        assert(outcomes.take(0) =~= Seq::empty());
        assert(outcomes[0] == segment_outcome(text(buf), 0));
        match outcomes[0] {
            Ok(found) => {
                assert(Seq::<u128>::empty() + found =~= found);
            },
            Err(_) => {},
        }
    } else {
        lemma_without_window(buf, parallelism, k - 1);
        assert(outcomes[k - 1] == Ok::<Seq<u128>, ScanError>(Seq::empty()));
        match segment_outcome(text(buf), 0) {
            Ok(found) => {
                assert(found + Seq::<u128>::empty() =~= found);
            },
            Err(_) => {},
        }
    }
}

/// A buffer that begins with a separator has an empty first line, which
/// stands for no number.
proof fn lemma_empty_first_line(buf: Seq<u8>, window: nat)
    requires
        buf.len() >= 2,
        buf[0] == SPLIT_MARKER,
    ensures
        segment_outcome(text(buf), window) == Err::<Seq<u128>, ScanError>(
            ScanError::MalformedNumber,
        ),
{
    let all = lines(text(buf));
    assert(text(buf)[0] == SPLIT_MARKER);
    assert(all[0] =~= Seq::<u8>::empty());
    assert(line_value(all[0]).is_none());
}

/// The scan of a buffer in one segment gives what the scan of the buffer is
/// to give.
pub proof fn lemma_single_segment_scan(buf: Seq<u8>, window: nat)
    ensures
        scan_outcome(buf, window, 1) == whole_outcome(buf, window),
{
    if !too_short(buf, window) && buf.last() == SPLIT_MARKER {
        if buf[0] == SPLIT_MARKER {
            lemma_empty_first_line(buf, window);
        } else {
            let outcomes = segment_outcomes(buf, window, 1);
            assert(split_point(buf.len(), 1, 1) == buf.len()) by (nonlinear_arith);
            assert(outcomes[0] == segment_outcome(text(buf), window));
            assert(outcomes.drop_last() =~= Seq::empty());
            assert(merged_outcome(outcomes.drop_last()) == Ok::<Seq<u128>, ScanError>(
                Seq::empty(),
            ));
            match outcomes[0] {
                Ok(found) => {
                    assert(Seq::<u128>::empty() + found =~= found);
                },
                Err(_) => {},
            }
        }
    }
}

/// A scan in several segments whose last walk reads to the end of the
/// buffer fails as the scan of the whole buffer, or gives the anomalies of
/// the buffer, each as often as it is one, but for those that fall between
/// two segments. No number is reported by two walks.
pub proof fn lemma_scan_in_segments(buf: Seq<u8>, window: nat, parallelism: nat)
    requires
        parallelism >= 1,
        reaches_end(buf, window, parallelism),
    ensures
        same_anomalies(
            scan_outcome(buf, window, parallelism),
            judged_outcome(buf, window, parallelism),
        ),
{
    let len = buf.len();
    if !too_short(buf, window) && buf.last() == SPLIT_MARKER {
        let all = lines(text(buf));
        let count = all.len() as int;
        if buf[0] == SPLIT_MARKER {
            lemma_empty_first_line(buf, window);
        } else if window == 0 {
            let outcomes = segment_outcomes(buf, window, parallelism);
            assert(outcomes.take(parallelism as int) =~= outcomes);
            lemma_without_window(buf, parallelism, parallelism as int);
            lemma_judged_free(buf, window, parallelism, 0, count);
        } else {
            let outcomes = segment_outcomes(buf, window, parallelism);
            let whole = parallelism as int;
            assert(outcomes.take(whole) =~= outcomes);
            lemma_outcome_before(buf, window, parallelism, whole);
            lemma_line_count(buf);
            lemma_line_index_behind(buf, len - 1);
            assert(lines_read(buf, window, parallelism, whole) == count);
            if lines_valid(all) {
                lemma_judged_joined(buf, window, parallelism, 0, window as int, count);
                lemma_judged_before_window(buf, window, parallelism, 0, window as int);
                let judged = judged_anomalies(buf, window, parallelism, window as int, count);
                assert(judged + Seq::<u128>::empty() =~= judged);
            } else {
                let bad = choose|i: int| 0 <= i < count && line_value(#[trigger] all[i]).is_none();
                assert(!valid_before(buf, count));
            }
        }
    }
}

/// A scan in several segments fails as the scan of the whole buffer, or
/// gives the same anomalies, each as often, whenever its last walk reads to
/// the end of the buffer and none of the numbers that fall between two
/// segments is an anomaly.
///
/// The condition on those numbers is asked only where it matters: where the
/// scan of the whole buffer succeeds.
pub proof fn lemma_scan_equivalence(buf: Seq<u8>, window: nat, parallelism: nat)
    requires
        parallelism >= 1,
        reaches_end(buf, window, parallelism),
        whole_outcome(buf, window).is_ok() ==> boundaries_regular(buf, window, parallelism),
    ensures
        same_anomalies(scan_outcome(buf, window, parallelism), whole_outcome(buf, window)),
{
    lemma_scan_in_segments(buf, window, parallelism);
    if whole_outcome(buf, window).is_ok() {
        lemma_judged_is_all(buf, window, parallelism, 0, stream(buf).len() as int);
    }
}

/// Two scans of the same buffer, with the same window and in the same number
/// of segments, end alike: what a scan gives depends on nothing else.
pub proof fn lemma_scan_repeatable(
    buf: Seq<u8>,
    window: nat,
    parallelism: nat,
    first: Result<Seq<u128>, ScanError>,
    second: Result<Seq<u128>, ScanError>,
)
    requires
        first == scan_outcome(buf, window, parallelism),
        second == scan_outcome(buf, window, parallelism),
    ensures
        first == second,
        same_anomalies(first, second),
{
}

} // verus!
