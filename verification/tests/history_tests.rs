use taskforge::history::{chronological_order, count_runs, health_of, is_failing, RunCounts, RunRecord, TaskHealth};
use taskforge::time::LocalDateTime;

fn at(secs: i64) -> LocalDateTime {
    LocalDateTime::from_timestamp(1_700_000_000 + secs, 0).unwrap()
}

fn record(secs: i64, success: bool, timed_out: bool) -> RunRecord {
    RunRecord { started_at: at(secs), success, timed_out }
}

fn counts(total: u64, successes: u64) -> RunCounts {
    RunCounts {
        total_runs: total,
        successes,
        failures: total - successes,
        timeouts: 0,
        last_run: None,
        last_success: None,
        last_failure: None,
    }
}

#[test]
fn counts_of_no_runs() {
    let c = count_runs(&Vec::new());
    assert_eq!(c.total_runs, 0);
    assert_eq!(c.successes, 0);
    assert_eq!(c.failures, 0);
    assert_eq!(c.timeouts, 0);
    assert_eq!(c.last_run, None);
    assert_eq!(c.last_success, None);
    assert_eq!(c.last_failure, None);
}

#[test]
fn counts_three_successes_and_a_failure() {
    let runs = vec![
        record(10, true, false),
        record(40, true, false),
        record(20, false, true),
        record(30, true, false),
    ];
    let c = count_runs(&runs);
    assert_eq!(c.total_runs, 4);
    assert_eq!(c.successes, 3);
    assert_eq!(c.failures, 1);
    assert_eq!(c.timeouts, 1);
    assert_eq!(c.last_run, Some(at(40)));
    assert_eq!(c.last_success, Some(at(40)));
    assert_eq!(c.last_failure, Some(at(20)));
}

#[test]
fn chronological_order_is_stable() {
    let runs = vec![
        record(30, true, false),
        record(10, false, false),
        record(30, false, false),
        record(20, true, false),
        record(10, true, false),
    ];
    assert_eq!(chronological_order(&runs), vec![1, 4, 3, 0, 2]);
    assert_eq!(chronological_order(&Vec::new()), Vec::<usize>::new());
}

#[test]
fn health_thresholds() {
    assert_eq!(health_of(false, &counts(10, 10)), TaskHealth::Disabled);
    assert_eq!(health_of(true, &counts(0, 0)), TaskHealth::NeverRun);
    assert_eq!(health_of(true, &counts(10, 9)), TaskHealth::Healthy);
    assert_eq!(health_of(true, &counts(100, 89)), TaskHealth::Degraded);
    assert_eq!(health_of(true, &counts(2, 1)), TaskHealth::Degraded);
    assert_eq!(health_of(true, &counts(100, 49)), TaskHealth::Critical);
    assert_eq!(health_of(true, &counts(4, 3)), TaskHealth::Degraded);
}

#[test]
fn failing_tasks() {
    assert!(!is_failing(&counts(0, 0)));
    assert!(is_failing(&counts(3, 1)));
    assert!(!is_failing(&counts(2, 1)));
    assert!(is_failing(&counts(1, 0)));
}
