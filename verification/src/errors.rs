//! The failure taxonomy of a reconciliation call.

use vstd::prelude::*;

verus! {

/// Why a reconciliation failed. Every failure is surfaced to the caller; the
/// engine never persists a partially fetched gap.
#[derive(Clone, Copy, PartialEq, Eq, Structural, Debug)]
pub enum SyncError {
    /// The requested range is inverted or the span limit is below one day.
    Validation,
    /// The remote provider failed for a sub-interval; carries the
    /// HTTP-style status it reported.
    Fetch { status: u16 },
    /// A fetched observation could not be normalized: malformed date prefix,
    /// non-finite or misplaced value, or out-of-range or unsorted days.
    Parse,
    /// The cache was present but unreadable or malformed on load, or could
    /// not be written on save.
    CacheIo,
}

} // verus!
