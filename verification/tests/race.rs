use happy_eyeballs::error::{ConnectionError, RaceError};
use happy_eyeballs::model::{Action, Connection, Event, Slot};
use happy_eyeballs::race::Race;

fn refused() -> ConnectionError {
    ConnectionError { code: 111 }
}

fn unreachable_host() -> ConnectionError {
    ConnectionError { code: 113 }
}

fn elapsed(units: u64) -> Event {
    Event::Elapsed { units }
}

fn connected(attempt: u64) -> Event {
    Event::Connected { attempt }
}

fn failed(attempt: u64, error: ConnectionError) -> Event {
    Event::Failed { attempt, error }
}

fn finishes(actions: &[Action]) -> usize {
    actions.iter().filter(|a| matches!(a, Action::Finish { .. })).count()
}

#[test]
fn zero_attempts_yield_invalid_argument() {
    assert!(matches!(Race::new(0), Err(RaceError::InvalidArgument)));
}

#[test]
fn a_new_race_has_started_nothing() {
    let race = Race::new(3).unwrap();
    assert_eq!(race.attempts(), 3);
    assert_eq!(race.now(), 0);
    assert_eq!(race.started(), 0);
    assert_eq!(race.outcome(), None);
    assert_eq!(race.last_error(), None);
    assert!(!race.is_finished());
    assert_eq!(race.slot(0), None);
    assert_eq!(race.next_wakeup(), Some(0));
}

#[test]
fn third_attempt_wins_after_two_failures() {
    let mut race = Race::new(3).unwrap();
    assert_eq!(race.step(elapsed(0)), vec![Action::Connect { attempt: 0 }]);
    assert_eq!(race.step(failed(0, refused())), vec![]);
    assert_eq!(race.step(elapsed(1)), vec![Action::Connect { attempt: 1 }]);
    assert_eq!(race.step(failed(1, refused())), vec![]);
    assert_eq!(race.step(elapsed(2)), vec![Action::Connect { attempt: 2 }]);
    assert_eq!(
        race.step(connected(2)),
        vec![Action::Finish { outcome: Ok(Connection { attempt: 2 }) }]
    );
    assert_eq!(race.outcome(), Some(Ok(Connection { attempt: 2 })));
    assert_eq!(race.now(), 2);
    assert_eq!(race.slot(0), Some(Slot::Failed));
    assert_eq!(race.slot(1), Some(Slot::Failed));
    assert_eq!(race.slot(2), Some(Slot::Won));
}

#[test]
fn all_three_failing_yields_all_failed() {
    let mut race = Race::new(3).unwrap();
    race.step(elapsed(0));
    race.step(failed(0, refused()));
    race.step(elapsed(1));
    race.step(failed(1, refused()));
    race.step(elapsed(2));
    assert_eq!(race.outcome(), None);
    assert_eq!(
        race.step(failed(2, unreachable_host())),
        vec![Action::Finish { outcome: Err(RaceError::AllFailed(unreachable_host())) }]
    );
    assert_eq!(race.outcome(), Some(Err(RaceError::AllFailed(unreachable_host()))));
    assert_eq!(race.last_error(), Some(unreachable_host()));
    assert!(race.is_finished());
    assert_eq!(race.next_wakeup(), None);
}

#[test]
fn silent_attempts_time_out_at_the_deadline() {
    let mut race = Race::new(2).unwrap();
    assert_eq!(race.step(elapsed(0)), vec![Action::Connect { attempt: 0 }]);
    assert_eq!(race.next_wakeup(), Some(1));
    assert_eq!(race.step(elapsed(1)), vec![Action::Connect { attempt: 1 }]);
    assert_eq!(race.next_wakeup(), Some(3));
    assert_eq!(race.step(elapsed(2)), vec![]);
    assert_eq!(race.outcome(), None);
    assert_eq!(
        race.step(elapsed(3)),
        vec![
            Action::Finish { outcome: Err(RaceError::TimedOut) },
            Action::Cancel { attempt: 0 },
            Action::Cancel { attempt: 1 },
        ]
    );
    assert_eq!(race.outcome(), Some(Err(RaceError::TimedOut)));
    assert_eq!(race.now(), 3);
    assert_eq!(race.slot(0), Some(Slot::Abandoned));
    assert_eq!(race.slot(1), Some(Slot::Abandoned));
}

#[test]
fn only_the_first_success_is_handed_over() {
    let mut race = Race::new(3).unwrap();
    let mut all = Vec::new();
    all.extend(race.step(elapsed(0)));
    all.extend(race.step(elapsed(1)));
    all.extend(race.step(elapsed(2)));
    all.extend(race.step(connected(1)));
    all.extend(race.step(connected(0)));
    all.extend(race.step(connected(2)));
    assert_eq!(finishes(&all), 1);
    assert_eq!(race.outcome(), Some(Ok(Connection { attempt: 1 })));
    assert_eq!(
        all,
        vec![
            Action::Connect { attempt: 0 },
            Action::Connect { attempt: 1 },
            Action::Connect { attempt: 2 },
            Action::Finish { outcome: Ok(Connection { attempt: 1 }) },
            Action::Cancel { attempt: 0 },
            Action::Cancel { attempt: 2 },
            Action::Close { attempt: 0 },
            Action::Close { attempt: 2 },
        ]
    );
}

#[test]
fn late_success_of_a_loser_is_closed() {
    let mut race = Race::new(2).unwrap();
    race.step(elapsed(0));
    race.step(elapsed(1));
    race.step(connected(0));
    assert_eq!(race.slot(1), Some(Slot::Abandoned));
    assert_eq!(race.step(connected(1)), vec![Action::Close { attempt: 1 }]);
    assert_eq!(race.slot(1), Some(Slot::Settled));
    assert_eq!(race.outcome(), Some(Ok(Connection { attempt: 0 })));
    assert_eq!(race.step(connected(1)), vec![]);
}

#[test]
fn late_success_after_timeout_is_closed() {
    let mut race = Race::new(1).unwrap();
    race.step(elapsed(0));
    assert_eq!(
        race.step(elapsed(2)),
        vec![Action::Finish { outcome: Err(RaceError::TimedOut) }, Action::Cancel { attempt: 0 }]
    );
    assert_eq!(race.step(connected(0)), vec![Action::Close { attempt: 0 }]);
    assert_eq!(race.outcome(), Some(Err(RaceError::TimedOut)));
}

#[test]
fn late_failure_of_a_loser_changes_nothing() {
    let mut race = Race::new(2).unwrap();
    race.step(elapsed(0));
    race.step(elapsed(1));
    race.step(connected(1));
    assert_eq!(race.step(failed(0, refused())), vec![]);
    assert_eq!(race.slot(0), Some(Slot::Settled));
    assert_eq!(race.outcome(), Some(Ok(Connection { attempt: 1 })));
    assert_eq!(race.last_error(), None);
}

#[test]
fn no_attempt_connects_before_its_delay() {
    let mut race = Race::new(5).unwrap();
    for now in 0..5u64 {
        let actions = race.step(elapsed(now));
        assert_eq!(actions, vec![Action::Connect { attempt: now }]);
        assert_eq!(race.started() as u64, now + 1);
        assert_eq!(race.slot(now + 1), None);
    }
    assert_eq!(race.step(elapsed(5)), vec![]);
}

#[test]
fn a_clock_that_jumps_starts_every_due_attempt() {
    let mut race = Race::new(4).unwrap();
    assert_eq!(
        race.step(elapsed(2)),
        vec![
            Action::Connect { attempt: 0 },
            Action::Connect { attempt: 1 },
            Action::Connect { attempt: 2 },
        ]
    );
    assert_eq!(race.next_wakeup(), Some(3));
    assert_eq!(race.step(elapsed(4)), vec![Action::Connect { attempt: 3 }]);
    assert_eq!(race.next_wakeup(), Some(5));
}

#[test]
fn a_clock_that_jumps_past_the_deadline_starts_nothing() {
    let mut race = Race::new(3).unwrap();
    assert_eq!(race.step(elapsed(4)), vec![Action::Finish { outcome: Err(RaceError::TimedOut) }]);
    assert_eq!(race.started(), 0);
}

#[test]
fn a_stale_clock_report_is_no_step_back() {
    let mut race = Race::new(3).unwrap();
    race.step(elapsed(1));
    assert_eq!(race.step(elapsed(0)), vec![]);
    assert_eq!(race.now(), 1);
    assert_eq!(race.started(), 2);
}

#[test]
fn reports_on_attempts_not_started_are_ignored() {
    let mut race = Race::new(3).unwrap();
    race.step(elapsed(0));
    assert_eq!(race.step(connected(1)), vec![]);
    assert_eq!(race.step(failed(2, refused())), vec![]);
    assert_eq!(race.step(connected(7)), vec![]);
    assert_eq!(race.outcome(), None);
    assert_eq!(race.last_error(), None);
    assert_eq!(race.started(), 1);
}

#[test]
fn a_failure_reported_twice_counts_once() {
    let mut race = Race::new(2).unwrap();
    race.step(elapsed(0));
    race.step(elapsed(1));
    assert_eq!(race.step(failed(0, refused())), vec![]);
    assert_eq!(race.step(failed(0, unreachable_host())), vec![]);
    assert_eq!(race.outcome(), None);
    assert_eq!(race.last_error(), Some(refused()));
    assert_eq!(
        race.step(failed(1, unreachable_host())),
        vec![Action::Finish { outcome: Err(RaceError::AllFailed(unreachable_host())) }]
    );
}

#[test]
fn all_failed_carries_the_failure_seen_last() {
    let mut race = Race::new(2).unwrap();
    race.step(elapsed(1));
    race.step(failed(1, unreachable_host()));
    race.step(failed(0, refused()));
    assert_eq!(race.outcome(), Some(Err(RaceError::AllFailed(refused()))));
}

#[test]
fn early_failures_do_not_end_a_race_with_attempts_to_come() {
    let mut race = Race::new(2).unwrap();
    race.step(elapsed(0));
    assert_eq!(race.step(failed(0, refused())), vec![]);
    assert_eq!(race.outcome(), None);
    assert_eq!(race.next_wakeup(), Some(1));
}

#[test]
fn deadline_beats_failures_still_outstanding() {
    let mut race = Race::new(2).unwrap();
    race.step(elapsed(0));
    race.step(elapsed(1));
    race.step(failed(0, refused()));
    assert_eq!(
        race.step(elapsed(3)),
        vec![Action::Finish { outcome: Err(RaceError::TimedOut) }, Action::Cancel { attempt: 1 }]
    );
    assert_eq!(race.slot(0), Some(Slot::Failed));
    assert_eq!(race.slot(1), Some(Slot::Abandoned));
}

#[test]
fn a_decided_race_ignores_the_clock() {
    let mut race = Race::new(1).unwrap();
    race.step(elapsed(0));
    race.step(connected(0));
    assert_eq!(race.step(elapsed(9)), vec![]);
    assert_eq!(race.now(), 0);
    assert_eq!(race.outcome(), Some(Ok(Connection { attempt: 0 })));
}

#[test]
fn single_attempt_failing_ends_the_race() {
    let mut race = Race::new(1).unwrap();
    race.step(elapsed(0));
    assert_eq!(
        race.step(failed(0, refused())),
        vec![Action::Finish { outcome: Err(RaceError::AllFailed(refused())) }]
    );
}

#[test]
fn feeding_a_run_equals_stepping_through_it() {
    let run = vec![
        elapsed(0),
        failed(0, refused()),
        elapsed(1),
        elapsed(2),
        connected(2),
        connected(1),
        elapsed(4),
    ];
    let mut stepped = Race::new(3).unwrap();
    let mut expected = Vec::new();
    for event in run.iter() {
        expected.extend(stepped.step(*event));
    }
    let mut fed = Race::new(3).unwrap();
    let actions = fed.feed(&run);
    assert_eq!(actions, expected);
    assert_eq!(
        actions,
        vec![
            Action::Connect { attempt: 0 },
            Action::Connect { attempt: 1 },
            Action::Connect { attempt: 2 },
            Action::Finish { outcome: Ok(Connection { attempt: 2 }) },
            Action::Cancel { attempt: 1 },
            Action::Close { attempt: 1 },
        ]
    );
    assert_eq!(fed.outcome(), stepped.outcome());
    assert_eq!(fed.now(), 2);
}

#[test]
fn feeding_nothing_changes_nothing() {
    let mut race = Race::new(2).unwrap();
    assert_eq!(race.feed(&Vec::new()), vec![]);
    assert_eq!(race.started(), 0);
    assert_eq!(race.outcome(), None);
}

#[test]
fn every_run_hands_over_at_most_one_outcome() {
    let reports = [
        elapsed(0),
        elapsed(1),
        connected(0),
        connected(1),
        failed(0, refused()),
        failed(1, refused()),
        elapsed(3),
    ];
    for a in reports.iter() {
        for b in reports.iter() {
            for c in reports.iter() {
                for d in reports.iter() {
                    let mut race = Race::new(2).unwrap();
                    let actions = race.feed(&vec![elapsed(0), *a, *b, *c, *d]);
                    let handed = finishes(&actions);
                    assert_eq!(handed, if race.is_finished() { 1 } else { 0 });
                    if let Some(outcome) = race.outcome() {
                        assert!(actions.contains(&Action::Finish { outcome }));
                    }
                }
            }
        }
    }
}
