//! The numbers that a scanner holds while it walks a segment.

use vstd::prelude::*;
use vstd::slice::slice_subrange;
use crate::validator::{has_pair_sum, is_number_valid};

verus! {

/// The numbers read last, at most one more than the window: a number that is
/// to be judged together with the `window` numbers read after it. The
/// storage is set aside when the buffer is made; a number that leaves makes
/// room for the one that comes.
pub struct SlidingWindow {
    slots: Vec<u128>,
    window: usize,
}

impl SlidingWindow {
    /// The numbers held, in the order in which they came in: the first is the
    /// one that leaves next.
    pub closed spec fn view(&self) -> Seq<u128> {
        self.slots@
    }

    /// How many numbers a number is judged against.
    pub closed spec fn window_size(&self) -> nat {
        self.window as nat
    }

    /// Never more than the window and one number are held.
    pub open spec fn wf(&self) -> bool {
        self@.len() <= self.window_size() + 1
    }

    /// The first number has its whole window behind it.
    pub open spec fn full(&self) -> bool {
        self@.len() == self.window_size() + 1
    }

    /// An empty buffer for the given window, with its storage set aside at
    /// once: room for the window and one number, or for `most` numbers where
    /// no more than that are to come and the buffer cannot fill.
    pub fn new(window: usize, most: usize) -> (buffer: Self)
        ensures
            buffer.wf(),
            buffer@ == Seq::<u128>::empty(),
            buffer.window_size() == window,
    {
        let room: usize = if most <= window {
            most
        } else {
            window + 1
        };
        SlidingWindow { slots: Vec::with_capacity(room), window }
    }

    /// How many numbers are held.
    pub fn len(&self) -> (n: usize)
        ensures
            n == self@.len(),
    {
        self.slots.len()
    }

    /// Whether the first number has its whole window behind it.
    pub fn is_full(&self) -> (full: bool)
        requires
            self.wf(),
        ensures
            full == self.full(),
    {
        self.slots.len() > self.window
    }

    /// The number that leaves next.
    pub fn oldest(&self) -> (number: u128)
        requires
            self@.len() >= 1,
        ensures
            number == self@[0],
    {
        self.slots[0]
    }

    /// Whether the number that leaves next is the sum of two of the numbers
    /// that came in after it.
    pub fn oldest_is_valid(&self) -> (valid: bool)
        requires
            self@.len() >= 1,
        ensures
            valid == has_pair_sum(self@.skip(1), self@[0]),
    {
        let n: usize = self.slots.len();
        let candidates = slice_subrange(self.slots.as_slice(), 1, n);
        assert(candidates@ =~= self@.skip(1));
        is_number_valid(self.slots[0], candidates)
    }
}

/// What taking in `new_number` makes of a buffer and of the list of the
/// anomalies found so far.
///
/// While the buffer is not full the number is only added. Once it is full the
/// number at the front leaves: it is judged against the window behind it and
/// joins the list if it is an anomaly, and the new number takes the last
/// place.
pub open spec fn fed(
    before: SlidingWindow,
    found: Seq<u128>,
    new_number: u128,
    after: SlidingWindow,
    grown: Seq<u128>,
) -> bool {
    &&& after.wf()
    &&& after.window_size() == before.window_size()
    &&& if before.full() {
        &&& after@ == before@.skip(1).push(new_number)
        &&& grown == if has_pair_sum(before@.skip(1), before@[0]) {
            found
        } else {
            found.push(before@[0])
        }
    } else {
        &&& after@ == before@.push(new_number)
        &&& grown == found
    }
}

/// Takes the next number of the walk into the buffer, and appends the number
/// that leaves the buffer for it to `result` if that number is an anomaly.
pub fn process_next_number(result: &mut Vec<u128>, numbers: &mut SlidingWindow, new_number: u128)
    requires
        old(numbers).wf(),
    ensures
        fed(*old(numbers), old(result)@, new_number, *final(numbers), final(result)@),
{
    if numbers.is_full() {
        if !numbers.oldest_is_valid() {
            result.push(numbers.oldest());
        }
        let _ = numbers.slots.remove(0);
        assert(numbers.slots@ =~= old(numbers)@.skip(1));
    }
    numbers.slots.push(new_number);
}

} // verus!
