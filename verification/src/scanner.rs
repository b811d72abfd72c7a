//! The walk over one segment of the buffer.

use vstd::prelude::*;
use vstd::slice::slice_subrange;
use crate::anomaly::{
    anomalies, anomalies_between, lemma_anomalies_after_prepend, lemma_no_anomaly_before_window,
    lemma_pair_sum_reversed,
};
use crate::config::{SPLIT_MARKER, STR_U128_LEN};
use crate::error::ScanError;
use crate::lines::{lemma_lines_of_suffix, lines};
use crate::parser::{parse_number_from_str_buffer, parsed_value};
use crate::validator::has_pair_sum;
use crate::window::{fed, process_next_number, SlidingWindow};

verus! {

/// What a line of a segment stands for: a line longer than the scratch
/// storage stands for nothing, whatever its digits.
pub open spec fn line_value(line: Seq<u8>) -> Option<u128> {
    if line.len() <= STR_U128_LEN {
        parsed_value(line)
    } else {
        None
    }
}

/// Every line stands for a number.
pub open spec fn lines_valid(all: Seq<Seq<u8>>) -> bool {
    forall|i: int| 0 <= i < all.len() ==> line_value(#[trigger] all[i]).is_some()
}

/// The numbers that the lines stand for, in the order of the lines; a line
/// that stands for nothing counts as zero.
pub open spec fn numbers_of(all: Seq<Seq<u8>>) -> Seq<u128> {
    Seq::new(
        all.len(),
        |i: int|
            match line_value(all[i]) {
                Some(value) => value,
                None => 0u128,
            },
    )
}

/// What the walk over a segment with these bytes gives: the anomalies of its
/// numbers, the one latest in the segment first, or `MalformedNumber` where
/// one of its lines stands for no number.
pub open spec fn segment_outcome(bytes: Seq<u8>, window: nat) -> Result<Seq<u128>, ScanError> {
    if lines_valid(lines(bytes)) {
        Ok(anomalies(numbers_of(lines(bytes)), window))
    } else {
        Err(ScanError::MalformedNumber)
    }
}

/// The result of a walk with the list of anomalies taken by its view.
pub open spec fn outcome_view(outcome: Result<Vec<u128>, ScanError>) -> Result<
    Seq<u128>,
    ScanError,
> {
    match outcome {
        Ok(found) => Ok(found@),
        Err(e) => Err(e),
    }
}

/// A line of a suffix that stands for nothing leaves a line of the whole
/// text that stands for nothing.
proof fn lemma_bad_line_in_suffix(text: Seq<u8>, from: int, i: int)
    requires
        0 <= from <= text.len(),
        0 <= i < lines(text.skip(from)).len(),
        i == 0 ==> lines(text.skip(from))[0].len() > STR_U128_LEN,
        i > 0 ==> line_value(lines(text.skip(from))[i]).is_none(),
    ensures
        !lines_valid(lines(text)),
{
    lemma_lines_of_suffix(text, from);
    let all = lines(text);
    let part = lines(text.skip(from));
    let k = all.len() - part.len() + i;
    assert(line_value(all[k]).is_none());
}

/// Walks the bytes `left_bound..=right_bound` of the buffer from the last to
/// the first and reports the anomalies among the numbers of that segment.
///
/// The segment is read as lines with a separator between each two; neither
/// end of it may cut a number. A number is judged once the `window` numbers
/// before it have been read, so the first `window` numbers of the segment
/// only serve as the windows of those that follow. The anomalies come out in
/// the order of the walk: the one latest in the segment first.
pub fn process(buf: &[u8], left_bound: usize, right_bound: usize, window: usize) -> (outcome:
    Result<Vec<u128>, ScanError>)
    requires
        left_bound <= right_bound + 1,
        right_bound < buf.len(),
    ensures
        outcome_view(outcome) == segment_outcome(
            buf@.subrange(left_bound as int, right_bound + 1),
            window as nat,
        ),
{
    let ghost text = buf@.subrange(left_bound as int, right_bound + 1);
    let mut str_buffer: [u8; STR_U128_LEN] = [0; STR_U128_LEN];
    let mut str_buffer_idx: usize = STR_U128_LEN;
    // Every number but the first takes a digit and a separator.
    let mut numbers = SlidingWindow::new(window, (right_bound + 1 - left_bound) / 2 + 1);
    let mut result: Vec<u128> = Vec::new();
    let mut idx: usize = right_bound + 1;
    proof {
        assert(text.skip(text.len() as int) =~= Seq::<u8>::empty());
        assert(lines(text.skip(text.len() as int)) =~= seq![Seq::<u8>::empty()]);
        assert(lines(text.skip(text.len() as int)).skip(1) =~= Seq::<Seq<u8>>::empty());
    }
    while idx > left_bound
        invariant
            left_bound <= idx <= right_bound + 1,
            right_bound < buf.len(),
            text == buf@.subrange(left_bound as int, right_bound + 1),
            str_buffer_idx <= STR_U128_LEN,
            lines(text.skip(idx - left_bound)).len() >= 1,
            str_buffer@.subrange(str_buffer_idx as int, STR_U128_LEN as int) == lines(
                text.skip(idx - left_bound),
            )[0],
            lines_valid(lines(text.skip(idx - left_bound)).skip(1)),
            walk_state(
                numbers_of(lines(text.skip(idx - left_bound)).skip(1)),
                window as nat,
                numbers,
                result@,
            ),
        decreases idx,
    {
        let ghost before = lines(text.skip(idx - left_bound));
        idx -= 1;
        let byte: u8 = buf[idx];
        let ghost after = lines(text.skip(idx - left_bound));
        proof {
            assert(text.skip(idx - left_bound).skip(1) =~= text.skip(idx + 1 - left_bound));
            assert(text.skip(idx - left_bound)[0] == byte);
        }
        if byte != SPLIT_MARKER {
            assert(after =~= before.update(0, seq![byte] + before[0]));
            assert(after.skip(1) =~= before.skip(1));
            if str_buffer_idx == 0 {
                proof {
                    lemma_bad_line_in_suffix(text, idx - left_bound, 0);
                }
                return Err(ScanError::MalformedNumber);
            }
            str_buffer_idx -= 1;
            str_buffer[str_buffer_idx] = byte;
            assert(str_buffer@.subrange(str_buffer_idx as int, STR_U128_LEN as int) =~= after[0]);
        } else {
            assert(after =~= seq![Seq::<u8>::empty()] + before);
            assert(after.skip(1) =~= before);
            let digits = slice_subrange(str_buffer.as_slice(), str_buffer_idx, STR_U128_LEN);
            let new_number: u128 = match parse_number_from_str_buffer(digits) {
                Ok(value) => value,
                Err(e) => {
                    proof {
                        lemma_bad_line_in_suffix(text, idx - left_bound, 1);
                    }
                    return Err(e);
                },
            };
            let ghost held = numbers;
            let ghost found = result@;
            process_next_number(&mut result, &mut numbers, new_number);
            proof {
                lemma_walk_step(before, new_number, window as nat, held, found, numbers, result@);
            }
            str_buffer_idx = STR_U128_LEN;
            assert(str_buffer@.subrange(str_buffer_idx as int, STR_U128_LEN as int) =~= after[0]);
        }
    }
    let ghost all = lines(text);
    assert(text.skip(0) =~= text);
    let digits = slice_subrange(str_buffer.as_slice(), str_buffer_idx, STR_U128_LEN);
    let new_number: u128 = match parse_number_from_str_buffer(digits) {
        Ok(value) => value,
        Err(e) => {
            assert(line_value(all[0]).is_none());
            return Err(e);
        },
    };
    let ghost held = numbers;
    let ghost found = result@;
    process_next_number(&mut result, &mut numbers, new_number);
    proof {
        lemma_walk_step(all, new_number, window as nat, held, found, numbers, result@);
    }
    let ghost stream = numbers_of(all);
    assert(all.skip(0) =~= all);
    if numbers.is_full() {
        proof {
            lemma_walk_pending(stream, window as nat, numbers, result@);
        }
        if !numbers.oldest_is_valid() {
            result.push(numbers.oldest());
        }
    }
    proof {
        lemma_no_anomaly_before_window(stream, window as nat, 0, stream.len() as int);
    }
    Ok(result)
}

/// How far a walk has come when `stream` is what it has read, written in the
/// order of the buffer: it holds the numbers read last, the last read at the
/// end, and has found the anomalies among those that have left.
spec fn walk_state(
    stream: Seq<u128>,
    window: nat,
    numbers: SlidingWindow,
    found: Seq<u128>,
) -> bool {
    &&& numbers.wf()
    &&& numbers.window_size() == window
    &&& numbers@.len() == if stream.len() <= window {
        stream.len()
    } else {
        window + 1
    }
    &&& forall|k: int| 0 <= k < numbers@.len() ==> numbers@[k] == stream[numbers@.len() - 1 - k]
    &&& found == anomalies_between(stream, window, window as int + 1, stream.len() as int)
}

/// The number that waits at the front of a full buffer is an anomaly of the
/// stream exactly if no two of the numbers behind it add up to it.
proof fn lemma_walk_pending(stream: Seq<u128>, window: nat, numbers: SlidingWindow, found: Seq<u128>)
    requires
        walk_state(stream, window, numbers, found),
        numbers.full(),
    ensures
        numbers@[0] == stream[window as int],
        has_pair_sum(numbers@.skip(1), numbers@[0]) ==> anomalies_between(
            stream,
            window,
            window as int,
            stream.len() as int,
        ) == found,
        !has_pair_sum(numbers@.skip(1), numbers@[0]) ==> anomalies_between(
            stream,
            window,
            window as int,
            stream.len() as int,
        ) == found.push(numbers@[0]),
{
    let ahead = stream.subrange(0, window as int);
    let behind = numbers@.skip(1);
    assert forall|k: int| 0 <= k < ahead.len() implies behind[k] == ahead[ahead.len() - 1 - k] by {
        assert(behind[k] == numbers@[k + 1]);
    }
    lemma_pair_sum_reversed(ahead, behind, stream[window as int]);
}

/// One step of the walk: taking in the number of the line read last leads
/// from the state for the lines read before to the state for all lines read.
proof fn lemma_walk_step(
    read: Seq<Seq<u8>>,
    value: u128,
    window: nat,
    numbers: SlidingWindow,
    found: Seq<u128>,
    next: SlidingWindow,
    grown: Seq<u128>,
)
    requires
        read.len() >= 1,
        line_value(read[0]) == Some(value),
        lines_valid(read.skip(1)),
        walk_state(numbers_of(read.skip(1)), window, numbers, found),
        fed(numbers, found, value, next, grown),
    ensures
        lines_valid(read),
        walk_state(numbers_of(read), window, next, grown),
{
    let rest = numbers_of(read.skip(1));
    let stream = numbers_of(read);
    assert(lines_valid(read)) by {
        assert forall|i: int| 0 <= i < read.len() implies line_value(#[trigger] read[i]).is_some() by {
            if i > 0 {
                assert(read[i] == read.skip(1)[i - 1]);
            }
        }
    }
    assert(stream =~= seq![value] + rest);
    if numbers.full() {
        lemma_walk_pending(rest, window, numbers, found);
        lemma_anomalies_after_prepend(value, rest, window, window as int, rest.len() as int);
    } else {
        assert(anomalies_between(rest, window, window as int + 1, rest.len() as int) == Seq::<
            u128,
        >::empty());
        assert(anomalies_between(stream, window, window as int + 1, stream.len() as int) == Seq::<
            u128,
        >::empty());
    }
}

} // verus!
