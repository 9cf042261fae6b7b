//! The attempt generator: which attempts a race is made of, when each may
//! start, and when the race as a whole gives up.

use vstd::prelude::*;
use futures_time::time::Duration;
use crate::error::RaceError;

verus! {

/// `futures_time::time::Duration`, a span of time. Nothing is known of what
/// a value holds: it is built and handed on.
#[verifier::external_type_specification]
#[verifier::external_body]
pub struct ExDuration(futures_time::time::Duration);

/// The span of time that `Duration::from_secs` builds from a number of
/// whole seconds.
pub uninterp spec fn duration_of_secs(secs: u64) -> Duration;

/// `futures_time::time::Duration::from_secs` builds its result from the
/// number of seconds alone: the same number always gives the same span.
pub assume_specification[ Duration::from_secs ](secs: u64) -> (d: Duration)
    ensures
        d == duration_of_secs(secs),
;

/// The number of delay units after which a race of `attempts` attempts is
/// given up: one more than the number of attempts, so that the last attempt,
/// which starts at unit `attempts - 1`, has two full units to connect.
pub open spec fn deadline_of(attempts: u64) -> nat {
    (attempts + 1) as nat
}

/// One staggered try against the target.
#[derive(Clone, Copy, Debug, PartialEq, Eq)]
pub struct Attempt<'a> {
    /// Position of this attempt in the race, counted from zero.
    pub index: u64,
    /// Address of the endpoint to connect to.
    pub address: &'a str,
    /// Port of the endpoint to connect to.
    pub port: u16,
}

impl<'a> Attempt<'a> {
    /// Delay units that must pass, from the start of the race, before this
    /// attempt may begin to connect.
    pub open spec fn spec_delay_units(self) -> nat {
        self.index as nat
    }

    /// Delay units that must pass, from the start of the race, before this
    /// attempt may begin to connect: its index.
    pub fn delay_units(&self) -> (units: u64)
        ensures
            units == self.spec_delay_units(),
    {
        self.index
    }

    /// The start delay as a span of time, one second to the delay unit.
    pub fn delay(&self) -> (d: Duration)
        ensures
            d == duration_of_secs(self.index),
    {
        Duration::from_secs(self.index)
    }
}

/// Whether `plan` is the schedule of a race of `attempts` attempts against
/// `address` and `port`: attempt `i` stands at position `i`.
pub open spec fn is_plan(plan: Seq<Attempt<'_>>, address: &str, port: u16, attempts: u64) -> bool {
    &&& plan.len() == attempts
    &&& forall|i: int|
        0 <= i < plan.len() ==> {
            &&& (#[trigger] plan[i]).index == i
            &&& plan[i].address@ == address@
            &&& plan[i].port == port
        }
}

/// Lays out the attempts of a race, in the order in which they start.
///
/// A race of zero attempts is refused with `InvalidArgument`; every other
/// count yields the full schedule.
pub fn plan_attempts<'a>(address: &'a str, port: u16, attempts: u64) -> (r: Result<
    Vec<Attempt<'a>>,
    RaceError,
>)
    requires
        attempts <= usize::MAX,
    ensures
        attempts == 0 ==> r == Err::<Vec<Attempt<'a>>, RaceError>(RaceError::InvalidArgument),
        attempts >= 1 ==> r is Ok && is_plan(r->Ok_0@, address, port, attempts),
{
    if attempts == 0 {
        return Err(RaceError::InvalidArgument);
    }
    let mut plan: Vec<Attempt<'a>> = Vec::new();
    let mut i: u64 = 0;
    while i < attempts
        invariant
            i <= attempts,
            is_plan(plan@, address, port, i),
        decreases attempts - i,
    {
        plan.push(Attempt { index: i, address, port });
        i = i + 1;
    }
    Ok(plan)
}

/// The deadline of a race of `attempts` attempts, in delay units from its
/// start.
pub fn deadline_units(attempts: u64) -> (units: u64)
    requires
        attempts < u64::MAX,
    ensures
        units == deadline_of(attempts),
{
    attempts + 1
}

/// The deadline of a race of `attempts` attempts as a span of time, one
/// second to the delay unit.
pub fn deadline(attempts: u64) -> (d: Duration)
    requires
        attempts < u64::MAX,
    ensures
        d == duration_of_secs((attempts + 1) as u64),
{
    Duration::from_secs(attempts + 1)
}

} // verus!
