//! The whole scan: the buffer cut into segments, a walk over each, and the
//! anomalies of all of them in one list.

use rayon::iter::{IntoParallelRefIterator, ParallelIterator};
use vstd::prelude::*;
use crate::config::{MARGIN_AVOID_LINE_BREAK, SPLIT_MARKER};
use crate::equivalence::{
    boundaries_regular, judged_outcome, lemma_scan_equivalence, lemma_scan_in_segments,
    same_anomalies,
};
use crate::error::ScanError;
use crate::lines::{
    count_delimiters, lemma_count_in_subrange, lemma_count_split, lemma_lines_len, lines,
};
use crate::partition::{get_bounds, lemma_reaches_end, segment_left, segment_right};
use crate::scanner::{outcome_view, process, segment_outcome};

verus! {

/// What the walk over the segment from `left` to `right` gives. A segment
/// that begins more than one byte behind its end has no line at all and no
/// anomaly: the segments before it have all the lines up to its end.
pub open spec fn bounded_outcome(buf: Seq<u8>, left: int, right: int, window: nat) -> Result<
    Seq<u128>,
    ScanError,
> {
    if left <= right + 1 {
        segment_outcome(buf.subrange(left, right + 1), window)
    } else {
        Ok(Seq::empty())
    }
}

/// The outcomes of several walks as one: the first failure in the order of
/// the segments, or else the anomalies of all of them, segment after segment.
pub open spec fn merged_outcome(outcomes: Seq<Result<Seq<u128>, ScanError>>) -> Result<
    Seq<u128>,
    ScanError,
>
    decreases outcomes.len(),
{
    if outcomes.len() == 0 {
        Ok(Seq::empty())
    } else {
        match merged_outcome(outcomes.drop_last()) {
            Err(e) => Err(e),
            Ok(found) => match outcomes.last() {
                Err(e) => Err(e),
                Ok(more) => Ok(found + more),
            },
        }
    }
}

/// The bytes that hold the numbers of the buffer: all but the last byte,
/// which closes the last line.
pub open spec fn text(buf: Seq<u8>) -> Seq<u8> {
    buf.subrange(0, buf.len() - 1)
}

/// The buffer is too short to be scanned: it has no room for a number and
/// the byte that closes its line, or it has no more lines than the window,
/// so that no number has a full window before it.
pub open spec fn too_short(buf: Seq<u8>, window: nat) -> bool {
    buf.len() < MARGIN_AVOID_LINE_BREAK || lines(text(buf)).len() <= window
}

/// What each of the segments of a scan gives, in the order of the segments.
pub open spec fn segment_outcomes(buf: Seq<u8>, window: nat, parallelism: nat) -> Seq<
    Result<Seq<u128>, ScanError>,
> {
    Seq::new(
        parallelism,
        |k: int|
            bounded_outcome(
                buf,
                segment_left(buf, window, parallelism, k),
                segment_right(buf, window, parallelism, k),
                window,
            ),
    )
}

/// What the scan of a buffer is to give: the anomalies of the stream of all
/// its numbers, or the reason why there are none to give. A buffer whose
/// last line is not closed by a separator is malformed, as is one with a
/// line that stands for no number.
pub open spec fn whole_outcome(buf: Seq<u8>, window: nat) -> Result<Seq<u128>, ScanError> {
    if too_short(buf, window) {
        Err(ScanError::InputTooShort)
    } else if buf.last() != SPLIT_MARKER {
        Err(ScanError::MalformedNumber)
    } else {
        segment_outcome(text(buf), window)
    }
}

/// What a scan of the buffer in `parallelism` segments gives, segment by
/// segment. A buffer that begins with a separator has an empty first line.
pub open spec fn scan_outcome(buf: Seq<u8>, window: nat, parallelism: nat) -> Result<
    Seq<u128>,
    ScanError,
> {
    if too_short(buf, window) {
        Err(ScanError::InputTooShort)
    } else if buf.last() != SPLIT_MARKER || buf[0] == SPLIT_MARKER {
        Err(ScanError::MalformedNumber)
    } else {
        merged_outcome(segment_outcomes(buf, window, parallelism))
    }
}

/// Whether the buffer holds a number with a full window before it: more
/// lines than the window. The count stops as soon as that many are found.
pub fn holds_full_window(buf: &[u8], window: usize) -> (holds: bool)
    ensures
        holds == !too_short(buf@, window as nat),
{
    let len: usize = buf.len();
    if len < MARGIN_AVOID_LINE_BREAK {
        return false;
    }
    let mut found: usize = 0;
    let mut idx: usize = 0;
    while idx < len - 1 && found < window
        invariant
            len == buf@.len(),
            len >= MARGIN_AVOID_LINE_BREAK,
            idx <= len - 1,
            found <= window,
            found == count_delimiters(buf@, 0, idx as int),
        decreases len - idx,
    {
        if buf[idx] == SPLIT_MARKER {
            found += 1;
        }
        idx += 1;
    }
    proof {
        lemma_lines_len(text(buf@));
        lemma_count_in_subrange(buf@, 0, len - 1, 0, len - 1);
        lemma_count_split(buf@, 0, idx as int, len - 1);
    }
    found >= window
}

/// The walk over one segment as `get_bounds` cut it.
pub fn process_segment(buf: &[u8], segment: &(usize, usize), window: usize) -> (outcome: Result<
    Vec<u128>,
    ScanError,
>)
    requires
        segment.1 < buf.len(),
    ensures
        outcome_view(outcome) == bounded_outcome(
            buf@,
            segment.0 as int,
            segment.1 as int,
            window as nat,
        ),
{
    if segment.0 > segment.1 + 1 {
        Ok(Vec::new())
    } else {
        process(buf, segment.0, segment.1, window)
    }
}

/// Runs `process_segment` on every segment through rayon's
/// `par_iter().map(..).collect()`, which hands the segments out to the
/// threads of its pool. The contract claims that the list collected has one
/// outcome for each segment, in the order of the segments, and that each is
/// what `process_segment` is proved to return for that segment.
#[verifier::external_body]
fn process_in_parallel(buf: &[u8], bounds: &Vec<(usize, usize)>, window: usize) -> (outcomes: Vec<
    Result<Vec<u128>, ScanError>,
>)
    requires
        forall|k: int| 0 <= k < bounds@.len() ==> (#[trigger] bounds@[k]).1 < buf.len(),
    ensures
        outcomes@.len() == bounds@.len(),
        forall|k: int|
            0 <= k < bounds@.len() ==> outcome_view(#[trigger] outcomes@[k]) == bounded_outcome(
                buf@,
                bounds@[k].0 as int,
                bounds@[k].1 as int,
                window as nat,
            ),
{
    bounds.par_iter().map(|segment| process_segment(buf, segment, window)).collect()
}

/// The outcomes of the walks, each with its list taken by its view.
pub open spec fn outcome_views(outcomes: Seq<Result<Vec<u128>, ScanError>>) -> Seq<
    Result<Seq<u128>, ScanError>,
> {
    Seq::new(outcomes.len(), |k: int| outcome_view(outcomes[k]))
}

/// Puts the outcomes of the walks together: the scan fails as the first
/// segment that failed, and gives the anomalies of all segments otherwise.
pub fn merge_outcomes(outcomes: &Vec<Result<Vec<u128>, ScanError>>) -> (merged: Result<
    Vec<u128>,
    ScanError,
>)
    ensures
        outcome_view(merged) == merged_outcome(outcome_views(outcomes@)),
{
    let ghost views = outcome_views(outcomes@);
    let mut result: Vec<u128> = Vec::new();
    let mut k: usize = 0;
    assert(views.take(0) =~= Seq::empty());
    while k < outcomes.len()
        invariant
            k <= outcomes@.len(),
            views == outcome_views(outcomes@),
            merged_outcome(views.take(k as int)) == Ok::<Seq<u128>, ScanError>(result@),
        decreases outcomes@.len() - k,
    {
        proof {
            assert(views.take(k + 1).drop_last() =~= views.take(k as int));
            assert(views.take(k + 1).last() == outcome_view(outcomes@[k as int]));
        }
        match &outcomes[k] {
            Ok(found) => {
                let ghost before = result@;
                result.extend_from_slice(found.as_slice());
                assert(result@ =~= before + found@);
            },
            Err(e) => {
                proof {
                    lemma_merged_failure(views, k + 1);
                }
                return Err(*e);
            },
        }
        k += 1;
    }
    assert(views.take(outcomes@.len() as int) =~= views);
    Ok(result)
}

/// Once the outcomes up to some segment fail as one, all of them do, and in
/// the same way.
pub proof fn lemma_merged_failure(outcomes: Seq<Result<Seq<u128>, ScanError>>, upto: int)
    requires
        0 <= upto <= outcomes.len(),
        merged_outcome(outcomes.take(upto)).is_err(),
    ensures
        merged_outcome(outcomes) == merged_outcome(outcomes.take(upto)),
    decreases outcomes.len() - upto,
{
    if upto == outcomes.len() {
        assert(outcomes.take(upto) =~= outcomes);
    } else {
        assert(outcomes.take(upto + 1).drop_last() =~= outcomes.take(upto));
        lemma_merged_failure(outcomes, upto + 1);
    }
}

/// Scans the buffer for anomalies: cuts it into `parallelism` segments,
/// walks all of them, and puts together what the walks found.
///
/// The last byte of the buffer must be the separator that closes its last
/// line. Within a segment the anomalies come latest first; the segments
/// follow each other in the order of the buffer.
///
/// No number is judged by two walks. A number with a full window before it
/// is judged by one, but for two kinds of numbers. The number at place
/// `window - 1` of each segment but the first is judged by none: the walk
/// before ends one line short of it. And where the last walk does not read
/// to the end of the buffer, the lines behind it stay unread; it does read
/// to the end where the buffer is cut into whole shares, and where there are
/// no more segments than the window is long.
pub fn scan(buf: &[u8], window: usize, parallelism: usize) -> (outcome: Result<
    Vec<u128>,
    ScanError,
>)
    requires
        parallelism >= 1,
    ensures
        outcome_view(outcome) == scan_outcome(buf@, window as nat, parallelism as nat),
        buf@.len() % (parallelism as nat) == 0 || parallelism <= window ==> same_anomalies(
            outcome_view(outcome),
            judged_outcome(buf@, window as nat, parallelism as nat),
        ),
        (buf@.len() % (parallelism as nat) == 0 || parallelism <= window) && (whole_outcome(
            buf@,
            window as nat,
        ).is_ok() ==> boundaries_regular(buf@, window as nat, parallelism as nat))
            ==> same_anomalies(outcome_view(outcome), whole_outcome(buf@, window as nat)),
{
    proof {
        if buf@.len() % (parallelism as nat) == 0 || parallelism <= window {
            lemma_reaches_end(buf@, window as nat, parallelism as nat);
            lemma_scan_in_segments(buf@, window as nat, parallelism as nat);
            if whole_outcome(buf@, window as nat).is_ok() ==> boundaries_regular(
                buf@,
                window as nat,
                parallelism as nat,
            ) {
                lemma_scan_equivalence(buf@, window as nat, parallelism as nat);
            }
        }
    }
    if !holds_full_window(buf, window) {
        return Err(ScanError::InputTooShort);
    }
    if buf[buf.len() - 1] != SPLIT_MARKER || buf[0] == SPLIT_MARKER {
        return Err(ScanError::MalformedNumber);
    }
    let bounds = get_bounds(buf, parallelism, window);
    let outcomes = process_in_parallel(buf, &bounds, window);
    assert(outcome_views(outcomes@) =~= segment_outcomes(
        buf@,
        window as nat,
        parallelism as nat,
    ));
    merge_outcomes(&outcomes)
}

} // verus!
