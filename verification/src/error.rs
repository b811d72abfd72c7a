//! Ways in which a scan can end without a result.

use vstd::prelude::*;

verus! {

/// Why a scan was abandoned. Either condition ends the whole scan: no partial
/// list of anomalies is ever handed out.
#[derive(Clone, Copy, Debug, PartialEq, Eq, Structural)]
pub enum ScanError {
    /// A line of the buffer is no number: it is empty, holds a byte that is
    /// no ASCII digit, is longer than the scratch storage, or stands for a
    /// value above `u128::MAX`. So is a last line that no separator closes.
    MalformedNumber,
    /// The buffer has no more lines than the window, so that none of its
    /// numbers has a full window before it.
    InputTooShort,
}

} // verus!
