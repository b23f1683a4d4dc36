//! Personal work-shift tracking library.
//!
//! The core of the library is the shift/log state machine: rules for which
//! shift is active, how elapsed time is computed and signed against a fixed
//! daily target, and how historical records are validated and brought into
//! the same model.

use vstd::prelude::*;

pub mod delta;
pub mod duration;
pub mod import;
pub mod store;
pub mod strutil;
pub mod timeparse;

verus! {

/// The fixed daily work-duration target, in seconds (9 hours).
pub const DAY_SECONDS: i64 = 32400;

/// One hour, in seconds; the width of the "near target" band.
pub const HOUR_SECONDS: i64 = 3600;

/// Bound on the magnitude of any timestamp the store accepts (about 73
/// billion years either side of the epoch).  Keeping every stored timestamp
/// within this bound guarantees that differences of two timestamps never
/// overflow an `i64`.
pub const TS_BOUND: i64 = 0x2000_0000_0000_0000;

/// A timestamp the store is willing to hold.
pub open spec fn ts_ok(t: int) -> bool {
    -TS_BOUND <= t <= TS_BOUND
}

/// The error vocabulary of the library.  Every operation that can fail says
/// in its contract exactly which variant it returns and when.
#[derive(Clone, Copy, Debug, PartialEq, Eq, Structural)]
pub enum TrackError {
    /// A shift was started while another is still active.
    Conflict,
    /// An operation needed an active shift (or completed history) and found none.
    NotFound,
    /// A malformed override-time string or import line.
    Parse,
    /// The underlying store cannot take another record.
    Storage,
    /// An input file could not be read; produced by callers that do the reading.
    Io,
}

} // verus!
