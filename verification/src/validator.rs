//! Decides whether a target is the sum of two entries of a window.

use vstd::prelude::*;

verus! {

/// Two distinct positions of `candidates` hold values that add up to `target`.
pub open spec fn has_pair_sum(candidates: Seq<u128>, target: u128) -> bool {
    exists|i: int, j: int|
        #![trigger candidates[i], candidates[j]]
        0 <= i < candidates.len() && 0 <= j < candidates.len() && i != j
            && candidates[i] + candidates[j] == target
}

/// Brute-force pairwise check of `target` against `candidates`.
///
/// Entries greater than `target` are skipped: no entry is negative, so they
/// cannot be part of a pair. The sum is never formed; the partner that an
/// entry needs is found by subtraction.
pub fn is_number_valid(target: u128, candidates: &[u128]) -> (valid: bool)
    ensures
        valid == has_pair_sum(candidates@, target),
{
    let n: usize = candidates.len();
    let mut i: usize = 0;
    while i < n
        invariant
            n == candidates@.len(),
            i <= n,
            forall|a: int, b: int|
                #![trigger candidates@[a], candidates@[b]]
                0 <= a < i && a < b < n ==> candidates@[a] + candidates@[b] != target,
        decreases n - i,
    {
        let outer: u128 = candidates[i];
        if outer <= target {
            let partner: u128 = target - outer;
            let mut j: usize = i + 1;
            while j < n
                invariant
                    n == candidates@.len(),
                    i < j <= n,
                    outer == candidates@[i as int],
                    outer + partner == target,
                    forall|b: int|
                        #![trigger candidates@[b]]
                        i < b < j ==> candidates@[i as int] + candidates@[b] != target,
                decreases n - j,
            {
                if candidates[j] == partner {
                    assert(candidates@[i as int] + candidates@[j as int] == target);
                    return true;
                }
                j += 1;
            }
        }
        i += 1;
    }
    assert(!has_pair_sum(candidates@, target)) by {
        if has_pair_sum(candidates@, target) {
            let (a, b) = choose|a: int, b: int|
                #![trigger candidates@[a], candidates@[b]]
                0 <= a < candidates@.len() && 0 <= b < candidates@.len() && a != b
                    && candidates@[a] + candidates@[b] == target;
            if a < b {
                assert(candidates@[a] + candidates@[b] != target);
            } else {
                assert(candidates@[b] + candidates@[a] != target);
            }
        }
    }
    false
}

} // verus!
