//! Small utilities: the once-only initialization cell and the error a
//! bounded string build can report.

use vstd::prelude::*;

pub mod early_init;

verus! {

/// Why a byte buffer cannot become a bounded string.
#[derive(Clone, Copy, PartialEq, Eq, Structural, Debug)]
pub enum ArrayStringError {
    /// The buffer exceeds the string's capacity.
    TooLong,
    /// The buffer is not valid text.
    Utf8,
}

} // verus!
