//! The ways in which an attempt, or the race as a whole, can end badly.

use vstd::prelude::*;

verus! {

/// Why one attempt's connect operation failed, as the transport reported it.
#[derive(Clone, Copy, Debug, PartialEq, Eq)]
pub struct ConnectionError {
    /// The transport's error code.
    pub code: i32,
}

/// Why a race returned no connection.
#[derive(Clone, Copy, Debug, PartialEq, Eq)]
pub enum RaceError {
    /// The race was asked for zero attempts. Nothing was scheduled.
    InvalidArgument,
    /// Every attempt failed. The payload is the failure that was seen last.
    AllFailed(ConnectionError),
    /// The deadline passed before any attempt connected.
    TimedOut,
}

} // verus!
