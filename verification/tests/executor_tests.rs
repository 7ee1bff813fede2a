use taskforge::executor::{next_retry, RetryStep, RunPlan};
use taskforge::registry::{RetryKind, RetryPolicy, TaskConfig, TaskRegistry};
use taskforge::time::LocalDateTime;

fn policy(kind: RetryKind, max_retries: u32, delay_secs: u64, initial_delay_secs: u64) -> RetryPolicy {
    RetryPolicy { kind, max_retries, delay_secs, initial_delay_secs }
}

/// The attempts a task makes when all its runs fail, with the delay before each.
fn failing_runs(p: &RetryPolicy) -> Vec<(u32, u64)> {
    let mut runs = vec![(0, 0)];
    let mut attempt = 0;
    while let RetryStep::Retry { attempt: a, delay_secs } = next_retry(p, attempt, false) {
        runs.push((a, delay_secs));
        attempt = a;
    }
    runs
}

#[test]
fn immediate_retries_make_three_runs() {
    let p = policy(RetryKind::Immediate, 2, 0, 0);
    assert_eq!(failing_runs(&p), vec![(0, 0), (1, 0), (2, 0)]);
}

#[test]
fn success_stops_the_runs() {
    let p = policy(RetryKind::Immediate, 2, 0, 0);
    assert_eq!(next_retry(&p, 0, true), RetryStep::Stop);
    assert_eq!(next_retry(&RetryPolicy::default(), 0, false), RetryStep::Stop);
}

#[test]
fn never_policy_does_not_retry() {
    let p = policy(RetryKind::Never, 5, 3, 3);
    assert_eq!(failing_runs(&p), vec![(0, 0)]);
}

#[test]
fn fixed_retries_wait_the_same_delay() {
    let p = policy(RetryKind::Fixed, 3, 5, 0);
    assert_eq!(failing_runs(&p), vec![(0, 0), (1, 5), (2, 5), (3, 5)]);
}

#[test]
fn exponential_retries_double_the_delay() {
    let p = policy(RetryKind::Exponential, 4, 0, 3);
    assert_eq!(failing_runs(&p), vec![(0, 0), (1, 3), (2, 6), (3, 12), (4, 24)]);
}

fn config(name: &str, schedule: &str, enabled: bool) -> TaskConfig {
    TaskConfig {
        name: name.to_string(),
        command: "echo".to_string(),
        schedule: schedule.to_string(),
        timeout_secs: None,
        retry: RetryPolicy::default(),
        description: None,
        enabled,
    }
}

#[test]
fn the_plan_watches_enabled_tasks_and_launches_due_ones() {
    let registry = TaskRegistry::from_configs(vec![
        config("every_5m", "@every 5m", true),
        config("hourly", "@hourly", true),
        config("off", "@every 1m", false),
    ])
    .unwrap();
    let start = LocalDateTime::from_ymd_hms(2024, 1, 15, 10, 30, 0).unwrap();
    let mut plan = RunPlan::new(&registry, &start);
    let names: Vec<&str> = plan.runs.iter().map(|r| r.name.as_str()).collect();
    assert_eq!(names, vec!["every_5m", "hourly"]);
    assert_eq!(plan.runs[0].next, start.checked_add_seconds(300).unwrap());
    assert_eq!(plan.runs[1].next, LocalDateTime::from_ymd_hms(2024, 1, 15, 11, 0, 0).unwrap());

    // nothing is due a minute later
    let t1 = start.checked_add_seconds(60).unwrap();
    assert!(plan.tick(&registry, &t1).is_empty());

    // five minutes later the interval task is due and moves on
    let t5 = start.checked_add_seconds(300).unwrap();
    assert_eq!(plan.tick(&registry, &t5), vec!["every_5m".to_string()]);
    assert_eq!(plan.runs[0].next, t5.checked_add_seconds(300).unwrap());

    // at eleven both are due
    let t30 = start.checked_add_seconds(1800).unwrap();
    assert_eq!(plan.tick(&registry, &t30), vec!["every_5m".to_string(), "hourly".to_string()]);
    assert_eq!(plan.runs[1].next, LocalDateTime::from_ymd_hms(2024, 1, 15, 12, 0, 0).unwrap());
}
