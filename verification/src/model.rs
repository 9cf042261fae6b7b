//! The race as a mathematical state machine: its states, the events that
//! reach it, and what it answers to each.
//!
//! Time is counted in whole delay units from the start of the race. Attempt
//! `i` is due at unit `i`; the race is given up at unit `attempts + 1`.
//!
//! Reports reach the race one at a time, and the order in which they reach
//! it is the order that counts:
//!
//! - The first connection reported by an attempt in flight wins. Where two
//!   attempts connect at the same instant, the one reported first wins and
//!   the other is closed.
//! - Where an attempt connects at the instant of the deadline, whichever of
//!   the two is reported first decides the race.
//! - A clock report at or past the deadline ends the race before any attempt
//!   that would have been due by then is started.
//! - Where every attempt fails, `AllFailed` carries the failure that was
//!   reported last.
//! - Reports on attempts that were never started, and second reports on one
//!   attempt, change nothing.

use vstd::prelude::*;
use crate::error::{ConnectionError, RaceError};

verus! {

/// An open stream, known by the attempt that opened it.
#[derive(Clone, Copy, Debug, PartialEq, Eq)]
pub struct Connection {
    /// Index of the attempt whose connect operation produced the stream.
    pub attempt: u64,
}

/// How a race ends: with the winner's connection, or with the reason why
/// there is none.
pub type RaceOutcome = Result<Connection, RaceError>;

/// Where one started attempt stands.
#[derive(Clone, Copy, Debug, PartialEq, Eq)]
pub enum Slot {
    /// Its connect operation has been invoked and has not reported back.
    InFlight,
    /// Its connect operation failed while the race was undecided.
    Failed,
    /// It connected first: its connection is the outcome of the race.
    Won,
    /// The race ended while it was in flight; its result is no longer wanted.
    Abandoned,
    /// It was abandoned, and its late result has since arrived and been
    /// disposed of.
    Settled,
}

/// What the clock and the transport report to the race.
#[derive(Clone, Copy, Debug, PartialEq, Eq)]
pub enum Event {
    /// `units` whole delay units have passed since the race began.
    Elapsed { units: u64 },
    /// The connect operation of `attempt` produced an open stream.
    Connected { attempt: u64 },
    /// The connect operation of `attempt` failed with `error`.
    Failed { attempt: u64, error: ConnectionError },
}

/// What the race asks its driver to do.
#[derive(Clone, Copy, Debug, PartialEq, Eq)]
pub enum Action {
    /// Invoke the connect operation of `attempt`.
    Connect { attempt: u64 },
    /// Hand `outcome` to the caller: the race is decided.
    Finish { outcome: RaceOutcome },
    /// Stop the connect operation of `attempt`, as far as it can be stopped.
    Cancel { attempt: u64 },
    /// Close the stream that the abandoned `attempt` opened after all.
    Close { attempt: u64 },
}

/// The slots after the race is decided: every attempt still in flight is
/// abandoned, the others stay as they are.
pub open spec fn abandoned(slots: Seq<Slot>) -> Seq<Slot> {
    Seq::new(
        slots.len(),
        |i: int|
            if slots[i] is InFlight {
                Slot::Abandoned
            } else {
                slots[i]
            },
    )
}

/// One `Cancel` for each attempt in flight, in index order.
pub open spec fn cancels(slots: Seq<Slot>) -> Seq<Action>
    decreases slots.len(),
{
    if slots.len() == 0 {
        Seq::empty()
    } else if slots.last() is InFlight {
        cancels(slots.drop_last()).push(Action::Cancel { attempt: (slots.len() - 1) as u64 })
    } else {
        cancels(slots.drop_last())
    }
}

/// The state of a race, as contracts speak of it.
pub struct RaceView {
    /// Number of attempts the race is made of.
    pub attempts: nat,
    /// Delay units elapsed since the race began, as last reported.
    pub now: nat,
    /// The attempts started so far, by index.
    pub slots: Seq<Slot>,
    /// The failure reported last, if any attempt has failed.
    pub last_error: Option<ConnectionError>,
    /// The outcome, once the race is decided.
    pub outcome: Option<RaceOutcome>,
}

impl RaceView {
    /// A race of `attempts` attempts before anything has been reported.
    pub open spec fn initial(attempts: u64) -> RaceView {
        RaceView {
            attempts: attempts as nat,
            now: 0,
            slots: Seq::empty(),
            last_error: None,
            outcome: None,
        }
    }

    /// The delay unit at which the race is given up.
    pub open spec fn deadline(self) -> nat {
        self.attempts + 1
    }

    /// Whether the race is still undecided.
    pub open spec fn is_open(self) -> bool {
        self.outcome is None
    }

    /// How many attempts have reached their start delay once `now` units
    /// have elapsed: attempt `i` is due from unit `i` on.
    pub open spec fn due(self, now: nat) -> nat {
        if now + 1 < self.attempts {
            now + 1
        } else {
            self.attempts
        }
    }

    /// Whether every attempt of the race has started and failed.
    pub open spec fn all_failed(self) -> bool {
        &&& self.slots.len() == self.attempts
        &&& forall|i: int| 0 <= i < self.slots.len() ==> self.slots[i] is Failed
    }

    /// The states that a race can be in.
    ///
    /// Every started attempt has reached its start delay. While the race is
    /// undecided, the deadline lies ahead and each started attempt is in
    /// flight or has failed, some attempt still not having failed. Once it
    /// is decided, no attempt is in flight. One attempt has won exactly when
    /// its connection is the outcome.
    pub open spec fn wf(self) -> bool {
        &&& 1 <= self.attempts < u64::MAX
        &&& self.now <= u64::MAX
        &&& self.slots.len() <= self.due(self.now)
        &&& match self.outcome {
            None => {
                &&& self.now < self.deadline()
                &&& !self.all_failed()
                &&& forall|i: int|
                    0 <= i < self.slots.len() ==> self.slots[i] is InFlight
                        || self.slots[i] is Failed
            },
            Some(Ok(connection)) => {
                &&& connection.attempt < self.slots.len()
                &&& self.slots[connection.attempt as int] is Won
            },
            Some(Err(RaceError::AllFailed(error))) => {
                &&& self.all_failed()
                &&& self.last_error == Some(error)
            },
            Some(Err(RaceError::TimedOut)) => true,
            Some(Err(RaceError::InvalidArgument)) => false,
        }
        &&& self.outcome is Some ==> forall|i: int|
            0 <= i < self.slots.len() ==> !(self.slots[i] is InFlight)
        &&& forall|i: int|
            0 <= i < self.slots.len() && self.slots[i] is Won ==> self.outcome == Some(
                Ok::<Connection, RaceError>(Connection { attempt: i as u64 }),
            )
    }

    /// The latest time reported so far, counting `units`.
    pub open spec fn clock(self, units: u64) -> nat {
        if units > self.now {
            units as nat
        } else {
            self.now
        }
    }

    /// The state after `event`.
    pub open spec fn next(self, event: Event) -> RaceView {
        match event {
            Event::Elapsed { units } => {
                let now = self.clock(units);
                if !self.is_open() {
                    self
                } else if now >= self.deadline() {
                    RaceView {
                        now,
                        slots: abandoned(self.slots),
                        outcome: Some(Err(RaceError::TimedOut)),
                        ..self
                    }
                } else {
                    RaceView {
                        now,
                        slots: self.slots + Seq::new(
                            (self.due(now) - self.slots.len()) as nat,
                            |k: int| Slot::InFlight,
                        ),
                        ..self
                    }
                }
            },
            Event::Connected { attempt } => {
                if attempt >= self.slots.len() {
                    self
                } else if self.slots[attempt as int] is InFlight {
                    RaceView {
                        slots: abandoned(self.slots.update(attempt as int, Slot::Won)),
                        outcome: Some(Ok(Connection { attempt })),
                        ..self
                    }
                } else if self.slots[attempt as int] is Abandoned {
                    RaceView { slots: self.slots.update(attempt as int, Slot::Settled), ..self }
                } else {
                    self
                }
            },
            Event::Failed { attempt, error } => {
                if attempt >= self.slots.len() {
                    self
                } else if self.slots[attempt as int] is InFlight {
                    let retired = RaceView {
                        slots: self.slots.update(attempt as int, Slot::Failed),
                        last_error: Some(error),
                        ..self
                    };
                    if retired.all_failed() {
                        RaceView { outcome: Some(Err(RaceError::AllFailed(error))), ..retired }
                    } else {
                        retired
                    }
                } else if self.slots[attempt as int] is Abandoned {
                    RaceView { slots: self.slots.update(attempt as int, Slot::Settled), ..self }
                } else {
                    self
                }
            },
        }
    }

    /// What the race asks for in answer to `event`, in the order in which
    /// the driver is to carry it out.
    pub open spec fn actions(self, event: Event) -> Seq<Action> {
        match event {
            Event::Elapsed { units } => {
                let now = self.clock(units);
                if !self.is_open() {
                    Seq::empty()
                } else if now >= self.deadline() {
                    seq![Action::Finish { outcome: Err(RaceError::TimedOut) }] + cancels(self.slots)
                } else {
                    Seq::new(
                        (self.due(now) - self.slots.len()) as nat,
                        |k: int| Action::Connect { attempt: (self.slots.len() + k) as u64 },
                    )
                }
            },
            Event::Connected { attempt } => {
                if attempt >= self.slots.len() {
                    Seq::empty()
                } else if self.slots[attempt as int] is InFlight {
                    seq![Action::Finish { outcome: Ok(Connection { attempt }) }] + cancels(
                        self.slots.update(attempt as int, Slot::Won),
                    )
                } else if self.slots[attempt as int] is Abandoned {
                    seq![Action::Close { attempt }]
                } else {
                    Seq::empty()
                }
            },
            Event::Failed { attempt, error } => {
                if attempt < self.slots.len() && self.slots[attempt as int] is InFlight
                    && self.next(event).outcome is Some {
                    seq![Action::Finish { outcome: Err(RaceError::AllFailed(error)) }]
                } else {
                    Seq::empty()
                }
            },
        }
    }

    /// The state after a run of events, taken in order.
    pub open spec fn after(self, events: Seq<Event>) -> RaceView
        decreases events.len(),
    {
        if events.len() == 0 {
            self
        } else {
            self.after(events.drop_last()).next(events.last())
        }
    }

    /// Everything the race asks for over a run of events, in order.
    pub open spec fn trace(self, events: Seq<Event>) -> Seq<Action>
        decreases events.len(),
    {
        if events.len() == 0 {
            Seq::empty()
        } else {
            self.trace(events.drop_last()) + self.after(events.drop_last()).actions(events.last())
        }
    }

    /// When the driver must next report the time: at the start delay of the
    /// next attempt while some have not started, then at the deadline; never
    /// once the race is decided.
    pub open spec fn wakeup(self) -> Option<nat> {
        if !self.is_open() {
            None
        } else if self.slots.len() < self.attempts {
            Some(self.slots.len())
        } else {
            Some(self.deadline())
        }
    }
}

} // verus!
