use taskforge::registry::{RegistryError, RetryKind, RetryPolicy, TaskConfig, TaskRegistry};
use taskforge::scheduler::Schedule;
use taskforge::time::Duration;
use taskforge::registry::Task;

fn config(name: &str, command: &str, schedule: &str, enabled: bool) -> TaskConfig {
    TaskConfig {
        name: name.to_string(),
        command: command.to_string(),
        schedule: schedule.to_string(),
        timeout_secs: None,
        retry: RetryPolicy::default(),
        description: None,
        enabled,
    }
}

/// The three tasks of the sample configuration file.
fn valid_configs() -> Vec<TaskConfig> {
    let mut backup = config("backup_db", "pg_dump mydb > /tmp/backup.sql", "@daily", true);
    backup.timeout_secs = Some(300);
    backup.description = Some("Sauvegarde nocturne".to_string());
    backup.retry = RetryPolicy { kind: RetryKind::Fixed, max_retries: 3, delay_secs: 5, initial_delay_secs: 0 };
    vec![
        backup,
        config("nettoyage_tmp", "find /tmp -mtime +7 -delete", "0 3 * * 0", true),
        config("rapport_hebdo", "python3 /opt/rapports/generer.py", "@weekly", false),
    ]
}

#[test]
fn test_chargement_toml() {
    let registry = TaskRegistry::from_configs(valid_configs()).unwrap();
    assert_eq!(registry.len(), 3);
}

#[test]
fn test_taches_actives() {
    let registry = TaskRegistry::from_configs(valid_configs()).unwrap();
    assert_eq!(registry.enabled_tasks().len(), 2);
}

#[test]
fn test_get_task() {
    let registry = TaskRegistry::from_configs(valid_configs()).unwrap();
    let task = registry.get_task("nettoyage_tmp").unwrap();
    assert_eq!(task.command(), "find /tmp -mtime +7 -delete");
}

#[test]
fn test_task_inconnue() {
    let registry = TaskRegistry::from_configs(valid_configs()).unwrap();
    assert!(registry.get_task("inexistante").is_err());
}

#[test]
fn test_tache_dupliquee() {
    let configs = vec![
        config("doublon", "echo 1", "@hourly", true),
        config("doublon", "echo 2", "@daily", true),
    ];
    let result = TaskRegistry::from_configs(configs);
    assert!(result.is_err());
}

#[test]
fn test_schedule_invalide() {
    let configs = vec![config("mauvaise", "echo test", "invalide", true)];
    let result = TaskRegistry::from_configs(configs);
    assert!(result.is_err());
}

#[test]
fn test_activer_desactiver() {
    let mut registry = TaskRegistry::from_configs(valid_configs()).unwrap();
    registry.set_enabled("rapport_hebdo", true).unwrap();
    assert_eq!(registry.enabled_tasks().len(), 3);
    registry.set_enabled("backup_db", false).unwrap();
    assert_eq!(registry.enabled_tasks().len(), 2);
}

#[test]
fn test_timeout() {
    let registry = TaskRegistry::from_configs(valid_configs()).unwrap();
    let task = registry.get_task("backup_db").unwrap();
    assert_eq!(task.timeout(), Some(Duration::from_secs(300)));
}

#[test]
fn test_sans_timeout() {
    let registry = TaskRegistry::from_configs(valid_configs()).unwrap();
    let task = registry.get_task("nettoyage_tmp").unwrap();
    assert_eq!(task.timeout(), None);
}

#[test]
fn test_registre_vide() {
    let registry = TaskRegistry::new();
    assert!(registry.is_empty());
    assert_eq!(registry.enabled_tasks().len(), 0);
}

// --- further cases ---

#[test]
fn duplicate_error_names_the_task() {
    let configs = vec![
        config("doublon", "echo 1", "@hourly", true),
        config("doublon", "echo 2", "@daily", true),
    ];
    match TaskRegistry::from_configs(configs) {
        Err(RegistryError::DuplicateTask(n)) => assert_eq!(n, "doublon"),
        other => panic!("unexpected {:?}", other),
    }
}

#[test]
fn invalid_schedule_error_carries_the_reason() {
    let configs = vec![config("mauvaise", "echo test", "invalide", true)];
    match TaskRegistry::from_configs(configs) {
        Err(RegistryError::InvalidSchedule { name, err }) => {
            assert_eq!(name, "mauvaise");
            assert_eq!(
                err,
                "Expression invalide: L'expression cron doit avoir 5 champs, reçu 1 : 'invalide'"
            );
        }
        other => panic!("unexpected {:?}", other),
    }
}

#[test]
fn loading_stops_at_the_first_refusal() {
    let configs = vec![
        config("a", "echo", "@hourly", true),
        config("b", "echo", "60 * * * *", true),
        config("a", "echo", "@daily", true),
    ];
    match TaskRegistry::from_configs(configs) {
        Err(RegistryError::InvalidSchedule { name, err }) => {
            assert_eq!(name, "b");
            assert_eq!(err, "Valeur hors limites: champ=60, valeur=60");
        }
        other => panic!("unexpected {:?}", other),
    }
}

#[test]
fn unknown_task_errors() {
    let mut registry = TaskRegistry::from_configs(valid_configs()).unwrap();
    match registry.get_task("inexistante") {
        Err(RegistryError::UnknownTask(n)) => assert_eq!(n, "inexistante"),
        other => panic!("unexpected {:?}", other),
    }
    match registry.set_enabled("inexistante", true) {
        Err(RegistryError::UnknownTask(n)) => assert_eq!(n, "inexistante"),
        other => panic!("unexpected {:?}", other),
    }
    assert_eq!(registry.len(), 3);
}

#[test]
fn all_tasks_come_in_name_order() {
    let configs = vec![
        config("zeta", "echo", "@hourly", true),
        config("alpha", "echo", "@daily", false),
        config("mu", "echo", "@weekly", true),
    ];
    let registry = TaskRegistry::from_configs(configs).unwrap();
    let names: Vec<&str> = registry.all_tasks().iter().map(|t| t.name()).collect();
    assert_eq!(names, vec!["alpha", "mu", "zeta"]);
    let enabled: Vec<&str> = registry.enabled_tasks().iter().map(|t| t.name()).collect();
    assert_eq!(enabled, vec!["mu", "zeta"]);
}

#[test]
fn add_task_then_get_it() {
    let mut registry = TaskRegistry::new();
    registry.add_task(config("t", "echo hi", "@every 5m", true)).unwrap();
    let task = registry.get_task("t").unwrap();
    assert_eq!(task.command(), "echo hi");
    assert!(task.is_enabled());
    assert_eq!(task.retry_policy(), &RetryPolicy::default());
    assert!(matches!(registry.add_task(config("t", "echo", "@daily", true)), Err(RegistryError::DuplicateTask(_))));
    assert!(matches!(
        registry.add_task(config("u", "echo", "@every 5x", true)),
        Err(RegistryError::InvalidSchedule { .. })
    ));
    assert_eq!(registry.len(), 1);
}

#[test]
fn disabling_then_restoring_gives_back_the_registry() {
    let mut registry = TaskRegistry::from_configs(valid_configs()).unwrap();
    registry.set_enabled("backup_db", false).unwrap();
    assert!(!registry.get_task("backup_db").unwrap().is_enabled());
    registry.set_enabled("backup_db", true).unwrap();
    assert!(registry.get_task("backup_db").unwrap().is_enabled());
    assert_eq!(registry.enabled_tasks().len(), 2);
}

#[test]
fn load_checked_refuses_overflowing_schedules() {
    let configs = vec![config("big", "echo", "@every 18446744073709551615h", true)];
    assert!(TaskRegistry::load_checked(configs).is_none());
    // a duplicate stops the loading before the overflowing schedule is reached
    let configs = vec![
        config("a", "echo", "@hourly", true),
        config("a", "echo", "@daily", true),
        config("big", "echo", "@every 18446744073709551615h", true),
    ];
    assert!(matches!(TaskRegistry::load_checked(configs), Some(Err(RegistryError::DuplicateTask(_)))));
}

#[test]
fn task_from_config_with_schedule_keeps_both() {
    let schedule = Schedule::parse("@every 5m").unwrap();
    let task = Task::from_config_with_schedule(config("t", "echo", "@every 5m", false), schedule);
    assert_eq!(task.name(), "t");
    assert!(!task.is_enabled());
    assert_eq!(task.schedule.description(), "Toutes les 5 minute(s)");
}

#[test]
fn default_policy_never_retries() {
    assert_eq!(RetryPolicy::default().kind, RetryKind::Never);
    assert_eq!(RetryKind::default(), RetryKind::Never);
    assert!(taskforge::registry::default_enabled());
}

#[test]
fn enabled_tasks_are_listed_once_in_name_order() {
    let mut registry = TaskRegistry::from_configs(valid_configs()).unwrap();
    let names: Vec<&str> = registry.enabled_tasks().iter().map(|t| t.name()).collect();
    assert_eq!(names, vec!["backup_db", "nettoyage_tmp"]);
    registry.set_enabled("rapport_hebdo", true).unwrap();
    let names: Vec<&str> = registry.enabled_tasks().iter().map(|t| t.name()).collect();
    assert_eq!(names, vec!["backup_db", "nettoyage_tmp", "rapport_hebdo"]);
}
