use taskforge::cli::{command_summary, countdown, indent, is_late};
use taskforge::registry::{RetryPolicy, TaskConfig, TaskRegistry};
use taskforge::scheduler::Schedule;
use taskforge::time::LocalDateTime;

fn config(name: &str, command: &str, schedule: &str, enabled: bool) -> TaskConfig {
    TaskConfig {
        name: name.to_string(),
        command: command.to_string(),
        schedule: schedule.to_string(),
        timeout_secs: None,
        retry: RetryPolicy::default(),
        description: None,
        enabled,
    }
}

fn make_registry() -> TaskRegistry {
    TaskRegistry::from_configs(vec![
        config("tache_active", "echo hello", "@hourly", true),
        config("tache_inactive", "echo world", "@daily", false),
    ])
    .unwrap()
}

#[test]
fn test_list_toutes() {
    let registry = make_registry();
    assert_eq!(registry.all_tasks().len(), 2);
}

#[test]
fn test_list_actives_seulement() {
    let registry = make_registry();
    assert_eq!(registry.enabled_tasks().len(), 1);
    assert_eq!(registry.enabled_tasks()[0].name(), "tache_active");
}

#[test]
fn test_next_occurrence_cli() {
    let registry = make_registry();
    let now = LocalDateTime::now().unwrap();
    let task = registry.get_task("tache_active").unwrap();
    let next = task.schedule.next_occurrence(&now);
    assert!(next.is_some());
    assert!(next.unwrap() > now);
}

#[test]
fn test_enable_disable() {
    let mut registry = make_registry();
    registry.set_enabled("tache_active", false).unwrap();
    assert_eq!(registry.enabled_tasks().len(), 0);
    registry.set_enabled("tache_active", true).unwrap();
    assert_eq!(registry.enabled_tasks().len(), 1);
}

// --- further cases ---

#[test]
fn indent_prefixes_every_line() {
    assert_eq!(indent("a\nb\n", "  "), "  a\n  b");
    assert_eq!(indent("a\r\nb", "> "), "> a\n> b");
    assert_eq!(indent("a\n\nb", "-"), "-a\n-\n-b");
    assert_eq!(indent("", "  "), "");
    assert_eq!(indent("\n", "  "), "  ");
    assert_eq!(indent("x\r", "  "), "  x\r");
}

#[test]
fn short_commands_are_listed_whole() {
    assert_eq!(command_summary("echo hello"), "echo hello");
    let exact = "a".repeat(35);
    assert_eq!(command_summary(&exact), exact);
}

#[test]
fn long_commands_are_cut_at_32_bytes() {
    let long = "abcdefghijklmnopqrstuvwxyz0123456789";
    assert_eq!(command_summary(long), "abcdefghijklmnopqrstuvwxyz012345...");
    // 30 ASCII bytes, then two-byte characters: byte 32 starts the second one
    let mixed = format!("{}{}", "a".repeat(30), "éééé");
    assert_eq!(command_summary(&mixed), format!("{}é...", "a".repeat(30)));
}

#[test]
fn countdown_picks_its_unit() {
    let now = LocalDateTime::from_timestamp(1_700_000_000, 0).unwrap();
    let at = |secs: i64, nanos: u32| LocalDateTime::from_timestamp(1_700_000_000 + secs, nanos).unwrap();
    assert_eq!(countdown(&now, &at(30, 0)), "(dans 30s)");
    assert_eq!(countdown(&now, &at(59, 999_999_999)), "(dans 59s)");
    assert_eq!(countdown(&now, &at(300, 0)), "(dans 5min)");
    assert_eq!(countdown(&now, &at(3599, 0)), "(dans 59min)");
    assert_eq!(countdown(&now, &at(3900, 0)), "(dans 1h5min)");
    assert_eq!(countdown(&now, &at(90_000, 0)), "(dans 25h0min)");
    assert_eq!(countdown(&now, &at(-5, 0)), "(dans -5s)");
    assert_eq!(countdown(&now, &at(-1, 500_000_000)), "(dans 0s)");
}

#[test]
fn late_when_the_last_occurrence_passed_more_than_five_minutes_ago() {
    let now = LocalDateTime::from_ymd_hms(2024, 1, 15, 10, 30, 0).unwrap();
    // fired at 10:00, thirty minutes ago
    assert!(is_late(&Schedule::parse("0 * * * *").unwrap(), &now));
    // fires at 10:28, two minutes ago
    assert!(!is_late(&Schedule::parse("28 * * * *").unwrap(), &now));
    // an interval of one hour, counted from an hour ago, is due now
    assert!(!is_late(&Schedule::parse("@every 1h").unwrap(), &now));
    // an interval of ten minutes, counted from an hour ago, is 50 minutes past
    assert!(is_late(&Schedule::parse("@every 10m").unwrap(), &now));
}
