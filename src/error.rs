//! Why a computation over the input stopped.

use vstd::prelude::*;

verus! {

#[derive(Debug, Clone, Copy, PartialEq, Eq, Structural)]
pub enum Error {
    /// A value field is shorter than `d.d`'s two bytes, or longer than
    /// `MAX_MEASUREMENT_LEN`.
    Malformed,
    /// A count does not fit in a `u64`.
    Overflow,
    /// The buffer is full and holds no complete record.
    LineTooLong,
    /// Bytes are left over after the last record.
    Incomplete,
}

} // verus!
