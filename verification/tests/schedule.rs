use futures_time::time::Duration;
use happy_eyeballs::error::RaceError;
use happy_eyeballs::schedule::{deadline, deadline_units, plan_attempts, Attempt};

#[test]
fn zero_attempts_are_refused() {
    assert_eq!(plan_attempts("example.org", 80, 0), Err(RaceError::InvalidArgument));
}

#[test]
fn one_attempt_starts_at_once() {
    let plan = plan_attempts("example.org", 443, 1).unwrap();
    assert_eq!(plan, vec![Attempt { index: 0, address: "example.org", port: 443 }]);
    assert_eq!(plan[0].delay_units(), 0);
    assert_eq!(plan[0].delay(), Duration::from_secs(0));
}

#[test]
fn attempts_are_staggered_by_index() {
    let plan = plan_attempts("192.0.2.7", 80, 4).unwrap();
    assert_eq!(plan.len(), 4);
    for (i, attempt) in plan.iter().enumerate() {
        assert_eq!(attempt.index, i as u64);
        assert_eq!(attempt.address, "192.0.2.7");
        assert_eq!(attempt.port, 80);
        assert_eq!(attempt.delay_units(), i as u64);
    }
}

#[test]
fn delay_is_whole_seconds() {
    let plan = plan_attempts("example.org", 80, 3).unwrap();
    assert_eq!(plan[1].delay(), Duration::from_secs(1));
    assert_eq!(plan[2].delay(), Duration::from_secs(2));
    assert_eq!(plan[2].delay(), Duration::from_millis(2000));
    assert_ne!(plan[2].delay(), plan[1].delay());
}

#[test]
fn stagger_is_strictly_increasing() {
    let plan = plan_attempts("example.org", 80, 16).unwrap();
    for pair in plan.windows(2) {
        assert!(pair[0].delay_units() < pair[1].delay_units());
        assert!(pair[0].delay() < pair[1].delay());
    }
}

#[test]
fn deadline_is_one_past_the_attempt_count() {
    assert_eq!(deadline_units(1), 2);
    assert_eq!(deadline_units(3), 4);
    assert_eq!(deadline_units(u64::MAX - 1), u64::MAX);
}

#[test]
fn deadline_is_whole_seconds() {
    assert_eq!(deadline(3), Duration::from_secs(4));
    assert_eq!(deadline(1), Duration::from_millis(2000));
}

#[test]
fn deadline_leaves_the_last_attempt_time_to_connect() {
    for attempts in 1..20u64 {
        let plan = plan_attempts("example.org", 80, attempts).unwrap();
        let last = plan[plan.len() - 1];
        assert!(last.delay_units() + 1 <= deadline_units(attempts));
    }
}
