//! Which numbers of a stream are anomalies.

use vstd::prelude::*;
use crate::validator::has_pair_sum;

verus! {

/// The number at position `i` of the stream has a full window of `window`
/// numbers before it, and no two of them at distinct positions add up to it.
/// The first `window` numbers of a stream have no full window and are never
/// anomalies.
pub open spec fn is_anomaly(numbers: Seq<u128>, window: nat, i: int) -> bool {
    window <= i < numbers.len() && !has_pair_sum(numbers.subrange(i - window, i), numbers[i])
}

/// The anomalies at the positions from `lo` up to, not including, `hi`: the
/// one latest in the stream first.
pub open spec fn anomalies_between(numbers: Seq<u128>, window: nat, lo: int, hi: int) -> Seq<u128>
    decreases hi - lo,
{
    if lo >= hi {
        Seq::empty()
    } else {
        let later = anomalies_between(numbers, window, lo + 1, hi);
        if is_anomaly(numbers, window, lo) {
            later.push(numbers[lo])
        } else {
            later
        }
    }
}

/// All anomalies of the stream, the one latest in the stream first.
pub open spec fn anomalies(numbers: Seq<u128>, window: nat) -> Seq<u128> {
    anomalies_between(numbers, window, 0, numbers.len() as int)
}

/// Whether a window holds a pair does not depend on the direction in which
/// it is written down.
pub proof fn lemma_pair_sum_reversed(forward: Seq<u128>, backward: Seq<u128>, target: u128)
    requires
        forward.len() == backward.len(),
        forall|k: int| 0 <= k < forward.len() ==> backward[k] == forward[forward.len() - 1 - k],
    ensures
        has_pair_sum(backward, target) == has_pair_sum(forward, target),
{
    let n = forward.len() as int;
    if has_pair_sum(forward, target) {
        let (i, j) = choose|i: int, j: int|
            #![trigger forward[i], forward[j]]
            0 <= i < n && 0 <= j < n && i != j && forward[i] + forward[j] == target;
        assert(backward[n - 1 - i] + backward[n - 1 - j] == target);
    }
    if has_pair_sum(backward, target) {
        let (i, j) = choose|i: int, j: int|
            #![trigger backward[i], backward[j]]
            0 <= i < n && 0 <= j < n && i != j && backward[i] + backward[j] == target;
        assert(forward[n - 1 - i] + forward[n - 1 - j] == target);
    }
}

/// No position before the first full window holds an anomaly.
pub proof fn lemma_no_anomaly_before_window(numbers: Seq<u128>, window: nat, lo: int, hi: int)
    requires
        0 <= lo <= window,
    ensures
        anomalies_between(numbers, window, lo, hi) == anomalies_between(
            numbers,
            window,
            window as int,
            hi,
        ),
    decreases window - lo,
{
    if lo < window {
        lemma_no_anomaly_before_window(numbers, window, lo + 1, hi);
        if lo >= hi {
            assert(anomalies_between(numbers, window, lo + 1, hi) == Seq::<u128>::empty());
        }
    }
}

/// A number put in front of a stream moves every anomaly one position on and
/// changes none: each keeps its window.
pub proof fn lemma_anomalies_after_prepend(
    first: u128,
    rest: Seq<u128>,
    window: nat,
    lo: int,
    hi: int,
)
    requires
        window <= lo,
        hi <= rest.len(),
    ensures
        anomalies_between(seq![first] + rest, window, lo + 1, hi + 1) == anomalies_between(
            rest,
            window,
            lo,
            hi,
        ),
    decreases hi - lo,
{
    if lo < hi {
        let longer = seq![first] + rest;
        lemma_anomalies_after_prepend(first, rest, window, lo + 1, hi);
        assert(longer.subrange(lo + 1 - window, lo + 1) =~= rest.subrange(lo - window, lo));
        assert(longer[lo + 1] == rest[lo]);
    }
}

} // verus!
