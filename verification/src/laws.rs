//! What holds of every race, whatever the clock and the transport report
//! and in whatever order.

use vstd::prelude::*;
use crate::error::RaceError;
use crate::model::{abandoned, cancels, Action, Connection, Event, RaceOutcome, RaceView, Slot};

verus! {

/// A race begins in a state that a race can be in, undecided and with no
/// attempt started.
pub proof fn law_initial_state(attempts: u64)
    requires
        1 <= attempts < u64::MAX,
    ensures
        RaceView::initial(attempts).wf(),
        RaceView::initial(attempts).is_open(),
        RaceView::initial(attempts).slots.len() == 0,
{
}

/// A step never leads out of the states that a race can be in.
pub proof fn law_step_keeps_wf(v: RaceView, event: Event)
    requires
        v.wf(),
    ensures
        v.next(event).wf(),
{
    let w = v.next(event);
    match event {
        Event::Elapsed { units } => {
            if v.is_open() && v.clock(units) < v.deadline() {
                let fresh = Seq::new(
                    (v.due(v.clock(units)) - v.slots.len()) as nat,
                    |k: int| Slot::InFlight,
                );
                assert(w.slots =~= v.slots + fresh);
                if w.all_failed() {
                    assert(w.slots[w.slots.len() - 1] is Failed);
                    if fresh.len() == 0 {
                        assert(w.slots =~= v.slots);
                    }
                }
            }
        },
        Event::Connected { attempt } => {},
        Event::Failed { attempt, error } => {},
    }
}

/// A run of steps never leads out of the states that a race can be in.
pub proof fn law_run_keeps_wf(v: RaceView, events: Seq<Event>)
    requires
        v.wf(),
    ensures
        v.after(events).wf(),
    decreases events.len(),
{
    if events.len() > 0 {
        law_run_keeps_wf(v, events.drop_last());
        law_step_keeps_wf(v.after(events.drop_last()), events.last());
    }
}

/// The outcomes that a sequence of actions hands to the caller, in order.
pub open spec fn finishes(actions: Seq<Action>) -> Seq<RaceOutcome>
    decreases actions.len(),
{
    if actions.len() == 0 {
        Seq::empty()
    } else {
        match actions.last() {
            Action::Finish { outcome } => finishes(actions.drop_last()).push(outcome),
            _ => finishes(actions.drop_last()),
        }
    }
}

/// What two sequences of actions hand to the caller is what the first hands
/// over, then what the second does.
pub proof fn lemma_finishes_concat(a: Seq<Action>, b: Seq<Action>)
    ensures
        finishes(a + b) == finishes(a) + finishes(b),
    decreases b.len(),
{
    if b.len() == 0 {
        assert(a + b =~= a);
        assert(finishes(a) + finishes(b) =~= finishes(a));
    } else {
        lemma_finishes_concat(a, b.drop_last());
        assert((a + b).drop_last() =~= a + b.drop_last());
        assert((a + b).last() == b.last());
        match b.last() {
            Action::Finish { outcome } => {
                assert(finishes(a + b) =~= finishes(a) + finishes(b));
            },
            _ => {},
        }
    }
}

/// Cancelling hands nothing to the caller and starts nothing.
pub proof fn lemma_cancels_only_cancel(slots: Seq<Slot>)
    ensures
        finishes(cancels(slots)) == Seq::<RaceOutcome>::empty(),
        forall|j: int| 0 <= j < cancels(slots).len() ==> cancels(slots)[j] is Cancel,
    decreases slots.len(),
{
    if slots.len() > 0 {
        lemma_cancels_only_cancel(slots.drop_last());
        if slots.last() is InFlight {
            assert(cancels(slots).drop_last() =~= cancels(slots.drop_last()));
        }
    }
}

/// When a race is decided, each attempt then in flight is asked to be
/// cancelled, once, and no other attempt is.
pub proof fn law_cancels_reach_in_flight(slots: Seq<Slot>, attempt: u64)
    requires
        slots.len() <= u64::MAX,
    ensures
        cancels(slots).contains(Action::Cancel { attempt }) <==> attempt < slots.len()
            && slots[attempt as int] is InFlight,
        forall|j: int, k: int|
            0 <= j < k < cancels(slots).len() ==> cancels(slots)[j] != cancels(slots)[k],
    decreases slots.len(),
{
    let wanted = Action::Cancel { attempt };
    if slots.len() > 0 {
        let front = slots.drop_last();
        law_cancels_reach_in_flight(front, attempt);
        let rest = cancels(front);
        assert forall|j: int| 0 <= j < rest.len() implies rest[j] != (Action::Cancel {
            attempt: (slots.len() - 1) as u64,
        }) by {
            law_cancels_reach_in_flight(front, (slots.len() - 1) as u64);
            if rest[j] == (Action::Cancel { attempt: (slots.len() - 1) as u64 }) {
                assert(rest.contains(Action::Cancel { attempt: (slots.len() - 1) as u64 }));
            }
        }
        if slots.last() is InFlight {
            let all = cancels(slots);
            assert(all.drop_last() =~= rest);
            if all.contains(wanted) {
                let j = choose|j: int| 0 <= j < all.len() && all[j] == wanted;
                if j < rest.len() {
                    assert(rest[j] == wanted);
                    assert(rest.contains(wanted));
                }
            }
            if attempt < slots.len() && slots[attempt as int] is InFlight {
                if attempt == slots.len() - 1 {
                    assert(all[all.len() - 1] == wanted);
                } else {
                    let j = choose|j: int| 0 <= j < rest.len() && rest[j] == wanted;
                    assert(all[j] == wanted);
                }
            }
        }
    }
}

/// Once a race is decided, its outcome never changes, nothing more is
/// handed to the caller, and no further connect operation is asked for.
pub proof fn law_outcome_is_final(v: RaceView, event: Event)
    requires
        v.wf(),
        !v.is_open(),
    ensures
        v.next(event).outcome == v.outcome,
        finishes(v.actions(event)) == Seq::<RaceOutcome>::empty(),
        forall|j: int| 0 <= j < v.actions(event).len() ==> v.actions(event)[j] is Close,
{
    let asked = v.actions(event);
    if asked.len() > 0 {
        assert(asked.len() == 1);
        assert(asked.drop_last() =~= Seq::<Action>::empty());
        assert(finishes(asked.drop_last()) == Seq::<RaceOutcome>::empty());
    }
}

/// What a step hands to the caller: the outcome, at the step that decides
/// the race, and nothing at any other.
pub proof fn law_step_finishes_once(v: RaceView, event: Event)
    requires
        v.wf(),
    ensures
        finishes(v.actions(event)) == (if v.is_open() && !v.next(event).is_open() {
            seq![v.next(event).outcome->Some_0]
        } else {
            Seq::<RaceOutcome>::empty()
        }),
{
    let asked = v.actions(event);
    let w = v.next(event);
    if !v.is_open() {
        law_outcome_is_final(v, event);
    } else if !w.is_open() {
        let head = seq![Action::Finish { outcome: w.outcome->Some_0 }];
        assert(head.drop_last() =~= Seq::<Action>::empty());
        assert(finishes(head.drop_last()) =~= Seq::<RaceOutcome>::empty());
        assert(finishes(head) =~= seq![w.outcome->Some_0]);
        match event {
            Event::Elapsed { units } => {
                lemma_finishes_concat(head, cancels(v.slots));
                lemma_cancels_only_cancel(v.slots);
                assert(asked =~= head + cancels(v.slots));
                assert(finishes(head) + Seq::<RaceOutcome>::empty() =~= finishes(head));
            },
            Event::Connected { attempt } => {
                let rest = cancels(v.slots.update(attempt as int, Slot::Won));
                lemma_finishes_concat(head, rest);
                lemma_cancels_only_cancel(v.slots.update(attempt as int, Slot::Won));
                assert(asked =~= head + rest);
                assert(finishes(head) + Seq::<RaceOutcome>::empty() =~= finishes(head));
            },
            Event::Failed { attempt, error } => {
                assert(asked =~= head);
            },
        }
    } else {
        match event {
            Event::Elapsed { units } => {
                lemma_connects_finish_nothing(asked);
            },
            Event::Connected { attempt } => {},
            Event::Failed { attempt, error } => {},
        }
    }
}

/// A sequence of connect requests hands nothing to the caller.
pub proof fn lemma_connects_finish_nothing(actions: Seq<Action>)
    requires
        forall|j: int| 0 <= j < actions.len() ==> actions[j] is Connect,
    ensures
        finishes(actions) == Seq::<RaceOutcome>::empty(),
    decreases actions.len(),
{
    if actions.len() > 0 {
        lemma_connects_finish_nothing(actions.drop_last());
    }
}

/// Over any run of events a race hands its caller exactly one outcome if
/// the run decides it, and none if it does not: no second connection, and
/// no connection beside an error, ever reaches the caller.
pub proof fn law_one_outcome_per_run(v: RaceView, events: Seq<Event>)
    requires
        v.wf(),
        v.is_open(),
    ensures
        finishes(v.trace(events)) == (match v.after(events).outcome {
            Some(outcome) => seq![outcome],
            None => Seq::<RaceOutcome>::empty(),
        }),
    decreases events.len(),
{
    if events.len() > 0 {
        let front = events.drop_last();
        let mid = v.after(front);
        law_one_outcome_per_run(v, front);
        law_run_keeps_wf(v, front);
        law_step_finishes_once(mid, events.last());
        lemma_finishes_concat(v.trace(front), mid.actions(events.last()));
        if !mid.is_open() {
            law_outcome_is_final(mid, events.last());
        }
        assert(finishes(v.trace(events)) =~= finishes(v.trace(front)) + finishes(
            mid.actions(events.last()),
        ));
    }
}

/// A run taken in two parts ends where the second part ends, begun where
/// the first one ended.
pub proof fn lemma_after_split(v: RaceView, events: Seq<Event>, k: int)
    requires
        0 <= k <= events.len(),
    ensures
        v.after(events) == v.after(events.take(k)).after(events.skip(k)),
    decreases events.len(),
{
    if k == events.len() {
        assert(events.take(k) =~= events);
        assert(events.skip(k) =~= Seq::<Event>::empty());
    } else {
        let front = events.drop_last();
        lemma_after_split(v, front, k);
        assert(front.take(k) =~= events.take(k));
        assert(events.skip(k).drop_last() =~= front.skip(k));
        assert(events.skip(k).last() == events.last());
    }
}

/// A decided race stays decided, with the same outcome, over any run.
pub proof fn law_outcome_survives_run(v: RaceView, events: Seq<Event>)
    requires
        v.wf(),
        !v.is_open(),
    ensures
        v.after(events).outcome == v.outcome,
    decreases events.len(),
{
    if events.len() > 0 {
        law_outcome_survives_run(v, events.drop_last());
        law_run_keeps_wf(v, events.drop_last());
        law_outcome_is_final(v.after(events.drop_last()), events.last());
    }
}

/// The first attempt to connect while it is in flight wins: if, at some
/// point of a run, an attempt in flight reports a connection, the race ends
/// with that attempt's connection, whatever else the run holds.
pub proof fn law_first_success_wins(v: RaceView, events: Seq<Event>, k: int, attempt: u64)
    requires
        v.wf(),
        0 <= k < events.len(),
        events[k] == (Event::Connected { attempt }),
        attempt < v.after(events.take(k)).slots.len(),
        v.after(events.take(k)).slots[attempt as int] is InFlight,
    ensures
        v.after(events).outcome == Some(Ok::<Connection, RaceError>(Connection { attempt })),
{
    let before = v.after(events.take(k));
    let upto = events.take(k + 1);
    assert(upto.drop_last() =~= events.take(k));
    assert(upto.last() == events[k]);
    law_run_keeps_wf(v, events.take(k));
    law_run_keeps_wf(v, upto);
    lemma_after_split(v, events, k + 1);
    law_outcome_survives_run(v.after(upto), events.skip(k + 1));
}

/// Whether event `k` of a run that starts in `v` is the failure of
/// `attempt`, reported after that attempt was started.
pub open spec fn fails_at(v: RaceView, events: Seq<Event>, k: int, attempt: int) -> bool {
    &&& 0 <= k < events.len()
    &&& events[k] is Failed
    &&& events[k]->Failed_attempt == attempt
    &&& attempt < v.after(events.take(k)).slots.len()
}

/// Whether a run holds no connection and keeps the clock short of
/// `deadline`.
pub open spec fn fruitless(events: Seq<Event>, deadline: nat) -> bool {
    forall|k: int|
        0 <= k < events.len() ==> match #[trigger] events[k] {
            Event::Elapsed { units } => units < deadline,
            Event::Connected { attempt } => false,
            Event::Failed { attempt, error } => true,
        }
}

/// Whether `v` is undecided or has ended in `AllFailed`.
pub open spec fn undecided_or_all_failed(v: RaceView) -> bool {
    v.outcome is Some ==> v.outcome->Some_0 is Err && v.outcome->Some_0->Err_0 is AllFailed
}

/// Whether `v` holds attempt `attempt` as started and failed.
pub open spec fn retired(v: RaceView, attempt: int) -> bool {
    0 <= attempt < v.slots.len() && v.slots[attempt] is Failed
}

/// Where every attempt fails, the race ends with `AllFailed`: over a run
/// that holds no connection and in which the clock stays short of the
/// deadline, once each attempt has reported its failure after it was
/// started, the outcome is `AllFailed` with the failure reported last.
pub proof fn law_all_failures_end_race(v: RaceView, events: Seq<Event>)
    requires
        v.wf(),
        v.is_open(),
        fruitless(events, v.deadline()),
        forall|i: int|
            0 <= i < v.attempts ==> #[trigger] retired(v, i) || exists|k: int|
                fails_at(v, events, k, i),
    ensures
        v.after(events).outcome is Some,
        v.after(events).outcome->Some_0 is Err,
        v.after(events).outcome->Some_0->Err_0 is AllFailed,
        v.after(events).last_error == Some(v.after(events).outcome->Some_0->Err_0->AllFailed_0),
{
    lemma_failures_accumulate(v, events, events.len() as int);
    assert(events.take(events.len() as int) =~= events);
    let w = v.after(events);
    assert forall|i: int| 0 <= i < v.attempts implies retired(w, i) by {
        if !retired(v, i) {
            let k = choose|k: int| fails_at(v, events, k, i);
            assert(fails_at(v, events, k, i));
        }
    }
    assert(retired(w, v.attempts - 1));
    assert forall|i: int| 0 <= i < w.slots.len() implies w.slots[i] is Failed by {
        assert(retired(w, i));
    }
    assert(w.all_failed());
}

/// A step that is no connection and keeps the clock short of the deadline
/// leaves a race that is undecided or lost to failures in such a state, and
/// keeps every failure on record.
pub proof fn lemma_fruitless_step(v: RaceView, event: Event)
    requires
        v.wf(),
        v.now < v.deadline(),
        undecided_or_all_failed(v),
        match event {
            Event::Elapsed { units } => units < v.deadline(),
            Event::Connected { attempt } => false,
            Event::Failed { attempt, error } => true,
        },
    ensures
        v.next(event).wf(),
        v.next(event).attempts == v.attempts,
        v.next(event).now < v.deadline(),
        v.next(event).slots.len() >= v.slots.len(),
        undecided_or_all_failed(v.next(event)),
        forall|i: int| retired(v, i) ==> #[trigger] retired(v.next(event), i),
        event is Failed && event->Failed_attempt < v.slots.len() ==> retired(
            v.next(event),
            event->Failed_attempt as int,
        ),
{
    law_step_keeps_wf(v, event);
}

/// Over the first `n` events of a run without connections and short of the
/// deadline, the race is undecided or has ended in `AllFailed`, and every
/// attempt that has by then failed, in the run or before it, is held as
/// failed.
pub proof fn lemma_failures_accumulate(v: RaceView, events: Seq<Event>, n: int)
    requires
        v.wf(),
        v.is_open(),
        0 <= n <= events.len(),
        fruitless(events, v.deadline()),
    ensures
        v.after(events.take(n)).wf(),
        v.after(events.take(n)).attempts == v.attempts,
        v.after(events.take(n)).now < v.deadline(),
        v.after(events.take(n)).slots.len() >= v.slots.len(),
        undecided_or_all_failed(v.after(events.take(n))),
        forall|i: int| retired(v, i) ==> #[trigger] retired(v.after(events.take(n)), i),
        forall|k: int, i: int|
            k < n && #[trigger] fails_at(v, events, k, i) ==> retired(
                v.after(events.take(n)),
                i,
            ),
    decreases n,
{
    if n == 0 {
        assert(events.take(0) =~= Seq::<Event>::empty());
    } else {
        lemma_failures_accumulate(v, events, n - 1);
        let mid = v.after(events.take(n - 1));
        let e = events[n - 1];
        assert(events.take(n).drop_last() =~= events.take(n - 1));
        assert(events.take(n).last() == e);
        let w = v.after(events.take(n));
        assert(w == mid.next(e));
        lemma_fruitless_step(mid, e);
        assert forall|i: int| retired(v, i) implies #[trigger] retired(w, i) by {
            assert(retired(mid, i));
        }
        assert forall|k: int, i: int| k < n && #[trigger] fails_at(v, events, k, i) implies retired(
            w,
            i,
        ) by {
            if k < n - 1 {
                assert(retired(mid, i));
            }
        }
    }
}

/// The deadline decides: when the clock reaches it while the race is
/// undecided, the race ends with `TimedOut`, whatever the attempts have
/// reported so far, and every attempt in flight is abandoned.
pub proof fn law_deadline_times_out(v: RaceView, units: u64)
    requires
        v.wf(),
        v.is_open(),
        units >= v.deadline(),
    ensures
        v.next(Event::Elapsed { units }).outcome == Some(
            Err::<Connection, RaceError>(RaceError::TimedOut),
        ),
        v.actions(Event::Elapsed { units }) == seq![
            Action::Finish { outcome: Err(RaceError::TimedOut) },
        ] + cancels(v.slots),
        v.next(Event::Elapsed { units }).slots == abandoned(v.slots),
{
}

/// No attempt connects early, and none connects twice: a connect operation
/// is asked for only in answer to the clock, only for an attempt that has
/// not started, and only once the latest time reported has reached the
/// attempt's index.
pub proof fn law_no_early_connect(v: RaceView, event: Event, j: int)
    requires
        v.wf(),
        0 <= j < v.actions(event).len(),
        v.actions(event)[j] is Connect,
    ensures
        event is Elapsed,
        v.slots.len() <= v.actions(event)[j]->Connect_attempt,
        v.actions(event)[j]->Connect_attempt <= v.next(event).now,
        v.next(event).now == v.clock(event->units),
        v.actions(event)[j]->Connect_attempt < v.attempts,
        v.actions(event)[j]->Connect_attempt < v.next(event).slots.len(),
        v.next(event).slots[v.actions(event)[j]->Connect_attempt as int] is InFlight,
{
    match event {
        Event::Elapsed { units } => {
            if v.is_open() && v.clock(units) >= v.deadline() {
                lemma_cancels_only_cancel(v.slots);
                let head = seq![Action::Finish { outcome: Err::<Connection, RaceError>(RaceError::TimedOut) }];
                assert(v.actions(event) =~= head + cancels(v.slots));
                if j >= 1 {
                    assert(v.actions(event)[j] == cancels(v.slots)[j - 1]);
                }
            }
        },
        Event::Connected { attempt } => {
            if attempt < v.slots.len() && v.slots[attempt as int] is InFlight {
                let rest = cancels(v.slots.update(attempt as int, Slot::Won));
                lemma_cancels_only_cancel(v.slots.update(attempt as int, Slot::Won));
                if j >= 1 {
                    assert(v.actions(event)[j] == rest[j - 1]);
                }
            }
        },
        Event::Failed { attempt, error } => {},
    }
}

/// Every attempt started has reached its delay: attempt `i` is started only
/// once `i` delay units have elapsed.
pub proof fn law_started_attempts_were_due(v: RaceView, attempt: int)
    requires
        v.wf(),
        0 <= attempt < v.slots.len(),
    ensures
        attempt <= v.now,
{
}

/// Whether `event` is the transport's report on `attempt`.
pub open spec fn reports_on(event: Event, attempt: u64) -> bool {
    match event {
        Event::Elapsed { units } => false,
        Event::Connected { attempt: reported } => reported == attempt,
        Event::Failed { attempt: reported, error } => reported == attempt,
    }
}

/// A loser's connection never reaches the caller: an attempt in flight when
/// the race is decided, other than the winner, is abandoned, and if it
/// connects after all, the one thing asked for is that its stream be closed;
/// the outcome stays as it was.
pub proof fn law_late_success_is_closed(v: RaceView, event: Event, attempt: u64)
    requires
        v.wf(),
        v.is_open(),
        !v.next(event).is_open(),
        attempt < v.slots.len(),
        v.slots[attempt as int] is InFlight,
        !reports_on(event, attempt),
    ensures
        v.next(event).slots[attempt as int] is Abandoned,
        v.next(event).actions(Event::Connected { attempt }) == seq![Action::Close { attempt }],
        v.next(event).next(Event::Connected { attempt }).outcome == v.next(event).outcome,
        v.next(event).next(Event::Connected { attempt }).slots[attempt as int] is Settled,
{
    match event {
        Event::Failed { attempt: other, error } => {
            if other < v.slots.len() && v.slots[other as int] is InFlight {
                let retired = v.slots.update(other as int, Slot::Failed);
                if other != attempt {
                    assert(retired[attempt as int] is InFlight);
                }
            }
        },
        _ => {},
    }
}

/// A connection reported by an abandoned attempt is closed and changes
/// nothing else.
pub proof fn law_abandoned_connection_is_closed(v: RaceView, attempt: u64)
    requires
        v.wf(),
        attempt < v.slots.len(),
        v.slots[attempt as int] is Abandoned,
    ensures
        v.actions(Event::Connected { attempt }) == seq![Action::Close { attempt }],
        v.next(Event::Connected { attempt }).outcome == v.outcome,
        v.next(Event::Connected { attempt }).slots == v.slots.update(attempt as int, Slot::Settled),
{
}

} // verus!
