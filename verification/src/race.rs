//! The race executor and its deadline guard, as a machine that a driver
//! steps: it is told what the clock and the transport report, and answers
//! with what to do next.

use vstd::prelude::*;
use crate::error::{ConnectionError, RaceError};
use crate::model::{abandoned, cancels, Action, Connection, Event, RaceOutcome, RaceView, Slot};

verus! {

/// How many of `slots` have failed.
pub open spec fn count_failed(slots: Seq<Slot>) -> nat
    decreases slots.len(),
{
    if slots.len() == 0 {
        0
    } else if slots.last() is Failed {
        count_failed(slots.drop_last()) + 1
    } else {
        count_failed(slots.drop_last())
    }
}

/// At most every slot has failed, and all have exactly when the count says so.
pub proof fn lemma_count_failed_bound(slots: Seq<Slot>)
    ensures
        count_failed(slots) <= slots.len(),
        count_failed(slots) == slots.len() <==> forall|i: int|
            0 <= i < slots.len() ==> slots[i] is Failed,
    decreases slots.len(),
{
    if slots.len() > 0 {
        let front = slots.drop_last();
        lemma_count_failed_bound(front);
        if count_failed(slots) == slots.len() {
            assert forall|i: int| 0 <= i < slots.len() implies slots[i] is Failed by {
                if i < front.len() {
                    assert(front[i] is Failed);
                }
            }
        }
        if forall|i: int| 0 <= i < slots.len() ==> slots[i] is Failed {
            assert forall|i: int| 0 <= i < front.len() implies front[i] is Failed by {
                assert(slots[i] is Failed);
            }
        }
    }
}

/// Replacing one slot changes the count by what that slot gives and takes.
pub proof fn lemma_count_failed_update(slots: Seq<Slot>, i: int, slot: Slot)
    requires
        0 <= i < slots.len(),
    ensures
        count_failed(slots.update(i, slot)) + (if slots[i] is Failed {
            1nat
        } else {
            0nat
        }) == count_failed(slots) + (if slot is Failed {
            1nat
        } else {
            0nat
        }),
    decreases slots.len(),
{
    let changed = slots.update(i, slot);
    if i == slots.len() - 1 {
        assert(changed.drop_last() =~= slots.drop_last());
    } else {
        lemma_count_failed_update(slots.drop_last(), i, slot);
        assert(changed.drop_last() =~= slots.drop_last().update(i, slot));
    }
}

/// Abandoning the attempts in flight leaves the failed ones as they are.
pub proof fn lemma_count_failed_abandoned(slots: Seq<Slot>)
    ensures
        count_failed(abandoned(slots)) == count_failed(slots),
    decreases slots.len(),
{
    if slots.len() > 0 {
        lemma_count_failed_abandoned(slots.drop_last());
        assert(abandoned(slots).drop_last() =~= abandoned(slots.drop_last()));
    }
}

/// A race, from its setup to long after it is decided.
///
/// The driver reports to it with [`Race::step`] and carries out what it
/// answers with. The race keeps taking reports once it is decided, so that
/// what an abandoned attempt still opens is closed.
pub struct Race {
    attempts: u64,
    now: u64,
    slots: Vec<Slot>,
    failed: u64,
    last_error: Option<ConnectionError>,
    outcome: Option<RaceOutcome>,
}

impl View for Race {
    type V = RaceView;

    closed spec fn view(&self) -> RaceView {
        RaceView {
            attempts: self.attempts as nat,
            now: self.now as nat,
            slots: self.slots@,
            last_error: self.last_error,
            outcome: self.outcome,
        }
    }
}

/// Abandons every attempt in flight and asks for each to be cancelled.
fn abandon_in_flight(slots: &mut Vec<Slot>, actions: &mut Vec<Action>)
    ensures
        final(slots)@ == abandoned(old(slots)@),
        final(actions)@ == old(actions)@ + cancels(old(slots)@),
{
    let ghost before = slots@;
    let ghost asked = actions@;
    let mut i: usize = 0;
    while i < slots.len()
        invariant
            i <= slots.len(),
            slots.len() == before.len(),
            forall|j: int| 0 <= j < i ==> slots[j] == abandoned(before)[j],
            forall|j: int| i <= j < slots.len() ==> slots[j] == before[j],
            actions@ == asked + cancels(before.take(i as int)),
        decreases slots.len() - i,
    {
        let slot = slots[i];
        proof {
            assert(before.take(i + 1).drop_last() =~= before.take(i as int));
            assert(before.take(i + 1).last() == before[i as int]);
        }
        match slot {
            Slot::InFlight => {
                slots.set(i, Slot::Abandoned);
                actions.push(Action::Cancel { attempt: i as u64 });
                assert(actions@ =~= asked + cancels(before.take(i + 1)));
            },
            _ => {},
        }
        i = i + 1;
    }
    proof {
        assert(before.take(i as int) =~= before);
        assert(slots@ =~= abandoned(before));
    }
}

impl Race {
    /// Whether the count of failures that the race keeps agrees with its
    /// slots.
    pub closed spec fn counted(&self) -> bool {
        self.failed == count_failed(self.slots@)
    }

    /// The states that a race can be in.
    pub open spec fn wf(&self) -> bool {
        self@.wf() && self.counted()
    }

    /// Sets up a race of `attempts` attempts. Nothing is started: the first
    /// report of the time, at zero units, starts attempt 0.
    ///
    /// A race of zero attempts is refused with `InvalidArgument`. The count
    /// must leave room for the deadline, one unit past it.
    pub fn new(attempts: u64) -> (r: Result<Race, RaceError>)
        requires
            attempts < u64::MAX,
        ensures
            attempts == 0 ==> r is Err && r->Err_0 == RaceError::InvalidArgument,
            attempts >= 1 ==> r is Ok && r->Ok_0.wf() && r->Ok_0@ == RaceView::initial(attempts),
    {
        if attempts == 0 {
            return Err(RaceError::InvalidArgument);
        }
        let race = Race {
            attempts,
            now: 0,
            slots: Vec::new(),
            failed: 0,
            last_error: None,
            outcome: None,
        };
        Ok(race)
    }

    /// Number of attempts the race is made of.
    pub fn attempts(&self) -> (n: u64)
        ensures
            n == self@.attempts,
    {
        self.attempts
    }

    /// Delay units elapsed since the race began, as last reported.
    pub fn now(&self) -> (units: u64)
        ensures
            units == self@.now,
    {
        self.now
    }

    /// Number of attempts whose connect operation has been asked for.
    pub fn started(&self) -> (n: usize)
        ensures
            n == self@.slots.len(),
    {
        self.slots.len()
    }

    /// Where attempt `attempt` stands, if it has started.
    pub fn slot(&self, attempt: u64) -> (s: Option<Slot>)
        ensures
            s == (if attempt < self@.slots.len() {
                Some(self@.slots[attempt as int])
            } else {
                None
            }),
    {
        if attempt < self.slots.len() as u64 {
            Some(self.slots[attempt as usize])
        } else {
            None
        }
    }

    /// The failure reported last, if any attempt has failed.
    pub fn last_error(&self) -> (e: Option<ConnectionError>)
        ensures
            e == self@.last_error,
    {
        self.last_error
    }

    /// The outcome, once the race is decided.
    pub fn outcome(&self) -> (o: Option<RaceOutcome>)
        ensures
            o == self@.outcome,
    {
        self.outcome
    }

    /// Whether the race is decided.
    pub fn is_finished(&self) -> (b: bool)
        ensures
            b == !self@.is_open(),
    {
        self.outcome.is_some()
    }

    /// When the driver must next report the time, in delay units from the
    /// start of the race.
    pub fn next_wakeup(&self) -> (w: Option<u64>)
        requires
            self.wf(),
        ensures
            match w {
                Some(units) => self@.wakeup() == Some(units as nat),
                None => self@.wakeup() is None,
            },
    {
        if self.outcome.is_some() {
            None
        } else if (self.slots.len() as u64) < self.attempts {
            Some(self.slots.len() as u64)
        } else {
            Some(self.attempts + 1)
        }
    }

    /// The clock has advanced: starts the attempts that are now due, or ends
    /// the race where the deadline has been reached.
    fn on_elapsed(&mut self, units: u64) -> (actions: Vec<Action>)
        requires
            old(self).wf(),
        ensures
            final(self).wf(),
            final(self)@ == old(self)@.next(Event::Elapsed { units }),
            actions@ == old(self)@.actions(Event::Elapsed { units }),
    {
        let mut actions: Vec<Action> = Vec::new();
        if self.outcome.is_some() {
            return actions;
        }
        let now: u64 = if units > self.now { units } else { self.now };
        self.now = now;
        if now > self.attempts {
            self.outcome = Some(Err(RaceError::TimedOut));
            actions.push(Action::Finish { outcome: Err(RaceError::TimedOut) });
            proof {
                lemma_count_failed_abandoned(self.slots@);
            }
            abandon_in_flight(&mut self.slots, &mut actions);
            proof {
                assert(actions@ =~= old(self)@.actions(Event::Elapsed { units }));
            }
        } else {
            let due: u64 = if now + 1 < self.attempts { now + 1 } else { self.attempts };
            let ghost first = self.slots@.len();
            let mut k: u64 = self.slots.len() as u64;
            while k < due
                invariant
                    first <= k <= due,
                    due == old(self)@.due(now as nat),
                    self.attempts == old(self).attempts,
                    self.now == now,
                    self.failed == old(self).failed,
                    self.last_error == old(self).last_error,
                    self.outcome == old(self).outcome,
                    self.slots@ == old(self).slots@ + Seq::new(
                        (k - first) as nat,
                        |j: int| Slot::InFlight,
                    ),
                    self.failed == count_failed(self.slots@),
                    actions@ == Seq::new(
                        (k - first) as nat,
                        |j: int| Action::Connect { attempt: (first + j) as u64 },
                    ),
                decreases due - k,
            {
                let ghost grown = self.slots@;
                self.slots.push(Slot::InFlight);
                actions.push(Action::Connect { attempt: k });
                k = k + 1;
                proof {
                    assert(self.slots@.drop_last() =~= grown);
                    assert(self.slots@ =~= old(self).slots@ + Seq::new(
                        (k - first) as nat,
                        |j: int| Slot::InFlight,
                    ));
                    assert(actions@ =~= Seq::new(
                        (k - first) as nat,
                        |j: int| Action::Connect { attempt: (first + j) as u64 },
                    ));
                }
            }
            proof {
                lemma_count_failed_bound(self.slots@);
            }
        }
        actions
    }

    /// Attempt `attempt` has connected: it wins an undecided race, and is
    /// closed where the race was decided without it.
    fn on_connected(&mut self, attempt: u64) -> (actions: Vec<Action>)
        requires
            old(self).wf(),
        ensures
            final(self).wf(),
            final(self)@ == old(self)@.next(Event::Connected { attempt }),
            actions@ == old(self)@.actions(Event::Connected { attempt }),
    {
        let mut actions: Vec<Action> = Vec::new();
        if attempt >= self.slots.len() as u64 {
            return actions;
        }
        let i: usize = attempt as usize;
        match self.slots[i] {
            Slot::InFlight => {
                proof {
                    lemma_count_failed_update(self.slots@, i as int, Slot::Won);
                    lemma_count_failed_abandoned(self.slots@.update(i as int, Slot::Won));
                }
                self.slots.set(i, Slot::Won);
                self.outcome = Some(Ok(Connection { attempt }));
                actions.push(Action::Finish { outcome: Ok(Connection { attempt }) });
                abandon_in_flight(&mut self.slots, &mut actions);
                proof {
                    assert(actions@ =~= old(self)@.actions(Event::Connected { attempt }));
                }
            },
            Slot::Abandoned => {
                proof {
                    lemma_count_failed_update(self.slots@, i as int, Slot::Settled);
                }
                self.slots.set(i, Slot::Settled);
                actions.push(Action::Close { attempt });
                proof {
                    assert(actions@ =~= old(self)@.actions(Event::Connected { attempt }));
                }
            },
            _ => {},
        }
        actions
    }

    /// Attempt `attempt` has failed with `error`: it is retired, and the
    /// race ends where it was the last one standing.
    fn on_failed(&mut self, attempt: u64, error: ConnectionError) -> (actions: Vec<Action>)
        requires
            old(self).wf(),
        ensures
            final(self).wf(),
            final(self)@ == old(self)@.next(Event::Failed { attempt, error }),
            actions@ == old(self)@.actions(Event::Failed { attempt, error }),
    {
        let mut actions: Vec<Action> = Vec::new();
        if attempt >= self.slots.len() as u64 {
            return actions;
        }
        let i: usize = attempt as usize;
        match self.slots[i] {
            Slot::InFlight => {
                proof {
                    lemma_count_failed_update(self.slots@, i as int, Slot::Failed);
                    lemma_count_failed_bound(self.slots@);
                    lemma_count_failed_bound(self.slots@.update(i as int, Slot::Failed));
                }
                self.slots.set(i, Slot::Failed);
                self.failed = self.failed + 1;
                self.last_error = Some(error);
                if self.failed == self.attempts {
                    self.outcome = Some(Err(RaceError::AllFailed(error)));
                    actions.push(Action::Finish { outcome: Err(RaceError::AllFailed(error)) });
                }
                proof {
                    assert(actions@ =~= old(self)@.actions(Event::Failed { attempt, error }));
                }
            },
            Slot::Abandoned => {
                proof {
                    lemma_count_failed_update(self.slots@, i as int, Slot::Settled);
                }
                self.slots.set(i, Slot::Settled);
            },
            _ => {},
        }
        actions
    }

    /// Takes one report from the clock or the transport and answers with
    /// what the driver is to do, in order.
    pub fn step(&mut self, event: Event) -> (actions: Vec<Action>)
        requires
            old(self).wf(),
        ensures
            final(self).wf(),
            final(self)@ == old(self)@.next(event),
            actions@ == old(self)@.actions(event),
    {
        match event {
            Event::Elapsed { units } => self.on_elapsed(units),
            Event::Connected { attempt } => self.on_connected(attempt),
            Event::Failed { attempt, error } => self.on_failed(attempt, error),
        }
    }

    /// Takes a run of reports, in order, and answers with everything the
    /// driver is to do for them, in order.
    pub fn feed(&mut self, events: &Vec<Event>) -> (actions: Vec<Action>)
        requires
            old(self).wf(),
        ensures
            final(self).wf(),
            final(self)@ == old(self)@.after(events@),
            actions@ == old(self)@.trace(events@),
    {
        let mut actions: Vec<Action> = Vec::new();
        let mut k: usize = 0;
        proof {
            assert(events@.take(0) =~= Seq::<Event>::empty());
        }
        while k < events.len()
            invariant
                k <= events.len(),
                self.wf(),
                self@ == old(self)@.after(events@.take(k as int)),
                actions@ == old(self)@.trace(events@.take(k as int)),
            decreases events.len() - k,
        {
            let mut asked = self.step(events[k]);
            actions.append(&mut asked);
            proof {
                assert(events@.take(k + 1).drop_last() =~= events@.take(k as int));
                assert(events@.take(k + 1).last() == events@[k as int]);
            }
            k = k + 1;
        }
        proof {
            assert(events@.take(k as int) =~= events@);
        }
        actions
    }
}

} // verus!
