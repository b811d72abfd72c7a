//! Decimal numbers from runs of ASCII digits.

use vstd::prelude::*;
use crate::error::ScanError;

verus! {

/// The byte is one of `'0'..='9'`.
pub open spec fn is_digit(byte: u8) -> bool {
    0x30 <= byte <= 0x39
}

/// Every byte of the run is an ASCII digit.
pub open spec fn all_digits(run: Seq<u8>) -> bool {
    forall|i: int| 0 <= i < run.len() ==> is_digit(#[trigger] run[i])
}

/// The base-10 value of a run of digits, most significant digit first.
pub open spec fn digits_value(run: Seq<u8>) -> nat
    decreases run.len(),
{
    if run.len() == 0 {
        0
    } else {
        digits_value(run.drop_last()) * 10 + (run.last() - 0x30) as nat
    }
}

/// What a run of bytes stands for: its value where it is a non-empty run of
/// digits that fits in 128 bits, nothing otherwise.
pub open spec fn parsed_value(run: Seq<u8>) -> Option<u128> {
    if run.len() > 0 && all_digits(run) && digits_value(run) <= u128::MAX {
        Some(digits_value(run) as u128)
    } else {
        None
    }
}

/// A prefix of a run of digits never has a larger value than the run.
pub proof fn lemma_digits_value_prefix(run: Seq<u8>, k: int)
    requires
        all_digits(run),
        0 <= k <= run.len(),
    ensures
        digits_value(run.take(k)) <= digits_value(run),
    decreases run.len(),
{
    if k == run.len() {
        assert(run.take(k) =~= run);
    } else {
        let shorter = run.drop_last();
        assert(all_digits(shorter));
        lemma_digits_value_prefix(shorter, k);
        assert(shorter.take(k) =~= run.take(k));
        assert(is_digit(run.last()));
    }
}

/// Reads a run of ASCII digits as an unsigned 128-bit number.
///
/// No sign, blank or separator is accepted, and an empty run is no number.
pub fn parse_number_from_str_buffer(str_buffer: &[u8]) -> (parsed: Result<u128, ScanError>)
    ensures
        match parsed {
            Ok(value) => parsed_value(str_buffer@) == Some(value),
            Err(e) => e == ScanError::MalformedNumber && parsed_value(str_buffer@).is_none(),
        },
{
    let n: usize = str_buffer.len();
    if n == 0 {
        return Err(ScanError::MalformedNumber);
    }
    let mut value: u128 = 0;
    let mut i: usize = 0;
    while i < n
        invariant
            n == str_buffer@.len(),
            i <= n,
            all_digits(str_buffer@.take(i as int)),
            value == digits_value(str_buffer@.take(i as int)),
        decreases n - i,
    {
        let byte: u8 = str_buffer[i];
        if byte < 0x30 || byte > 0x39 {
            assert(!is_digit(str_buffer@[i as int]));
            return Err(ScanError::MalformedNumber);
        }
        let digit: u128 = (byte - 0x30) as u128;
        proof {
            let next = str_buffer@.take(i + 1);
            assert(next.drop_last() =~= str_buffer@.take(i as int));
            assert(next.last() == byte);
            assert(all_digits(next)) by {
                assert forall|k: int| 0 <= k < next.len() implies is_digit(#[trigger] next[k]) by {
                    if k < i {
                        assert(next[k] == str_buffer@.take(i as int)[k]);
                    }
                }
            }
            assert(digits_value(next) == value * 10 + digit);
            if value * 10 + digit > u128::MAX && all_digits(str_buffer@) {
                lemma_digits_value_prefix(str_buffer@, i + 1);
            }
        }
        let scaled: u128 = match value.checked_mul(10) {
            Some(s) => s,
            None => { return Err(ScanError::MalformedNumber); },
        };
        value = match scaled.checked_add(digit) {
            Some(v) => v,
            None => { return Err(ScanError::MalformedNumber); },
        };
        i += 1;
    }
    assert(str_buffer@.take(n as int) =~= str_buffer@);
    Ok(value)
}

} // verus!
