use taskforge::scheduler::{advance_for, next_candidate, Advance, CronField, Schedule, ScheduleError};
use taskforge::time::LocalDateTime;

fn dt(y: i32, mo: u32, d: u32, h: u32, m: u32) -> LocalDateTime {
    LocalDateTime::from_ymd_hms(y, mo, d, h, m, 0).unwrap()
}

// --- parser ---

#[test]
fn test_wildcard() {
    let f = CronField::parse("*", 0, 59).unwrap();
    assert_eq!(f, CronField::All);
    assert!(f.matches(0));
    assert!(f.matches(59));
}

#[test]
fn test_valeur_simple() {
    let f = CronField::parse("5", 0, 59).unwrap();
    assert!(f.matches(5));
    assert!(!f.matches(6));
}

#[test]
fn test_liste() {
    let f = CronField::parse("1,15,30", 0, 59).unwrap();
    assert!(f.matches(1));
    assert!(f.matches(15));
    assert!(f.matches(30));
    assert!(!f.matches(2));
}

#[test]
fn test_intervalle() {
    let f = CronField::parse("0-4", 0, 59).unwrap();
    for i in 0..=4 {
        assert!(f.matches(i));
    }
    assert!(!f.matches(5));
}

#[test]
fn test_pas() {
    let f = CronField::parse("*/15", 0, 59).unwrap();
    assert!(f.matches(0));
    assert!(f.matches(15));
    assert!(f.matches(30));
    assert!(f.matches(45));
    assert!(!f.matches(1));
}

#[test]
fn test_erreur_hors_limites() {
    let result = CronField::parse("60", 0, 59);
    assert!(result.is_err());
}

#[test]
fn test_erreur_pas_zero() {
    let result = CronField::parse("*/0", 0, 59);
    assert!(result.is_err());
}

// --- macros ---

#[test]
fn test_macro_daily() {
    let s = Schedule::parse("@daily").unwrap();
    let from = dt(2024, 1, 1, 10, 30);
    let next = s.next_occurrence(&from).unwrap();
    assert_eq!(next.hour(), 0);
    assert_eq!(next.minute(), 0);
    assert_eq!(next.day(), 2);
}

#[test]
fn test_macro_hourly() {
    let s = Schedule::parse("@hourly").unwrap();
    let from = dt(2024, 1, 1, 10, 30);
    let next = s.next_occurrence(&from).unwrap();
    assert_eq!(next.hour(), 11);
    assert_eq!(next.minute(), 0);
}

#[test]
fn test_macro_every_5m() {
    let s = Schedule::parse("@every 5m").unwrap();
    let from = dt(2024, 1, 1, 10, 0);
    let next = s.next_occurrence(&from).unwrap();
    assert_eq!(next, from.checked_add_seconds(5 * 60).unwrap());
}

#[test]
fn test_macro_every_2h() {
    let s = Schedule::parse("@every 2h").unwrap();
    let from = dt(2024, 1, 1, 10, 0);
    let next = s.next_occurrence(&from).unwrap();
    assert_eq!(next, from.checked_add_seconds(2 * 3600).unwrap());
}

#[test]
fn test_macro_every_30s() {
    let s = Schedule::parse("@every 30s").unwrap();
    let from = dt(2024, 1, 1, 10, 0);
    let next = s.next_occurrence(&from).unwrap();
    assert_eq!(next, from.checked_add_seconds(30).unwrap());
}

// --- next_occurrence ---

#[test]
fn test_next_occurrence_chaque_minute() {
    let s = Schedule::parse("* * * * *").unwrap();
    let from = dt(2024, 1, 15, 10, 30);
    let next = s.next_occurrence(&from).unwrap();
    assert_eq!(next, dt(2024, 1, 15, 10, 31));
}

#[test]
fn test_next_occurrence_specifique() {
    let s = Schedule::parse("30 14 * * *").unwrap();
    let from = dt(2024, 1, 15, 10, 0);
    let next = s.next_occurrence(&from).unwrap();
    assert_eq!(next.hour(), 14);
    assert_eq!(next.minute(), 30);
}

#[test]
fn test_next_occurrence_franchit_minuit() {
    let s = Schedule::parse("0 1 * * *").unwrap();
    let from = dt(2024, 1, 15, 10, 0);
    let next = s.next_occurrence(&from).unwrap();
    assert_eq!(next.day(), 16);
    assert_eq!(next.hour(), 1);
    assert_eq!(next.minute(), 0);
}

#[test]
fn test_next_occurrence_franchit_mois() {
    let s = Schedule::parse("0 0 1 * *").unwrap();
    let from = dt(2024, 1, 15, 10, 0);
    let next = s.next_occurrence(&from).unwrap();
    assert_eq!(next.month(), 2);
    assert_eq!(next.day(), 1);
    assert_eq!(next.hour(), 0);
}

#[test]
fn test_erreur_expression_incomplete() {
    let result = Schedule::parse("* * *");
    assert!(result.is_err());
}

#[test]
fn test_erreur_macro_every_invalide() {
    let result = Schedule::parse("@every 5x");
    assert!(result.is_err());
}

// --- further cases ---

fn values_of(f: &CronField) -> Vec<u32> {
    match f {
        CronField::All => Vec::new(),
        CronField::Values(v) => v.clone(),
    }
}

#[test]
fn field_values_are_sorted_and_distinct() {
    let f = CronField::parse("30,5,5,1-3", 0, 59).unwrap();
    assert_eq!(values_of(&f), vec![1, 2, 3, 5, 30]);
}

#[test]
fn field_step_from_a_start_runs_to_the_maximum() {
    let f = CronField::parse("10/20", 0, 59).unwrap();
    assert_eq!(values_of(&f), vec![10, 30, 50]);
    let g = CronField::parse("1-10/4", 0, 59).unwrap();
    assert_eq!(values_of(&g), vec![1, 5, 9]);
}

#[test]
fn field_out_of_range_error_names_the_value() {
    match CronField::parse("60", 0, 59) {
        Err(ScheduleError::OutOfRange { champ, valeur }) => {
            assert_eq!(champ, "60");
            assert_eq!(valeur, 60);
        }
        other => panic!("unexpected {:?}", other),
    }
    let e = CronField::parse("60", 0, 59).unwrap_err();
    assert_eq!(e.to_string(), "Valeur hors limites: champ=60, valeur=60");
}

#[test]
fn field_range_past_the_maximum_reports_the_first_value_outside() {
    match CronField::parse("58-61", 0, 59) {
        Err(ScheduleError::OutOfRange { champ, valeur }) => {
            assert_eq!(champ, "60");
            assert_eq!(valeur, 60);
        }
        other => panic!("unexpected {:?}", other),
    }
}

#[test]
fn field_parse_errors_carry_their_message() {
    let e = CronField::parse("*/0", 0, 59).unwrap_err();
    assert_eq!(e.to_string(), "Expression invalide: Le pas ne peut pas être 0");
    let e = CronField::parse("5-2", 0, 59).unwrap_err();
    assert_eq!(e.to_string(), "Expression invalide: Intervalle invalide: 5-2");
    let e = CronField::parse("a", 0, 59).unwrap_err();
    assert_eq!(e.to_string(), "Expression invalide: Valeur invalide: a");
    let e = CronField::parse("*/x", 0, 59).unwrap_err();
    assert_eq!(e.to_string(), "Expression invalide: Pas invalide: x");
}

#[test]
fn schedule_error_texts() {
    let e = Schedule::parse("* * *").unwrap_err();
    assert_eq!(
        e.to_string(),
        "Expression invalide: L'expression cron doit avoir 5 champs, reçu 3 : '* * *'"
    );
    let e = Schedule::parse("@every 5x").unwrap_err();
    assert_eq!(
        e.to_string(),
        "Expression invalide: @every doit être suivi de Xm, Xh ou Xs, reçu: 5x"
    );
    let e = Schedule::parse("@every xm").unwrap_err();
    assert_eq!(e.to_string(), "Expression invalide: @every invalide: @every xm");
}

#[test]
fn macros_mean_their_cron_expressions() {
    let from = dt(2024, 1, 15, 10, 0);
    for (m, c) in [
        ("@daily", "0 0 * * *"),
        ("@midnight", "0 0 * * *"),
        ("@hourly", "0 * * * *"),
        ("@weekly", "0 0 * * 0"),
        ("@monthly", "0 0 1 * *"),
        ("@yearly", "0 0 1 1 *"),
        ("@annually", "0 0 1 1 *"),
    ] {
        let a = Schedule::parse(m).unwrap().next_occurrence(&from);
        let b = Schedule::parse(c).unwrap().next_occurrence(&from);
        assert_eq!(a, b, "{} and {}", m, c);
    }
}

#[test]
fn weekly_fires_on_sunday_midnight() {
    let s = Schedule::parse("@weekly").unwrap();
    let next = s.next_occurrence(&dt(2024, 1, 15, 10, 0)).unwrap();
    assert_eq!(next, dt(2024, 1, 21, 0, 0));
    assert_eq!(next.weekday_from_sunday(), 0);
}

#[test]
fn surrounding_whitespace_is_ignored() {
    let from = dt(2024, 1, 1, 10, 0);
    let a = Schedule::parse("  @every 5m \t").unwrap().next_occurrence(&from);
    let b = Schedule::parse("@every 5m").unwrap().next_occurrence(&from);
    assert_eq!(a, b);
}

#[test]
fn descriptions_use_the_largest_exact_unit() {
    assert_eq!(Schedule::parse("@every 2h").unwrap().description(), "Toutes les 2 heure(s)");
    assert_eq!(Schedule::parse("@every 90m").unwrap().description(), "Toutes les 90 minute(s)");
    assert_eq!(Schedule::parse("@every 120m").unwrap().description(), "Toutes les 2 heure(s)");
    assert_eq!(Schedule::parse("@every 30s").unwrap().description(), "Toutes les 30 seconde(s)");
    assert_eq!(Schedule::parse("@every 0s").unwrap().description(), "Toutes les 0 heure(s)");
    assert_eq!(Schedule::parse("0 1 * * *").unwrap().description(), "Expression cron");
}

#[test]
fn overflowing_expressions_are_detected() {
    assert!(Schedule::overflows("@every 18446744073709551615m"));
    assert!(Schedule::overflows("1/4294967295 * * * *"));
    assert!(!Schedule::overflows("@every 5m"));
    assert!(!Schedule::overflows("* * *"));
}

#[test]
fn next_is_defined_for_ordinary_dates() {
    let from = dt(2024, 1, 1, 10, 0);
    assert!(Schedule::parse("@every 5m").unwrap().next_is_defined(&from));
    assert!(Schedule::parse("@daily").unwrap().next_is_defined(&from));
}

#[test]
fn day_of_month_and_day_of_week_must_both_match() {
    // the 13th that falls on a Friday: 2024-09-13
    let s = Schedule::parse("0 12 13 * 5").unwrap();
    let next = s.next_occurrence(&dt(2024, 1, 1, 0, 0)).unwrap();
    assert_eq!(next, dt(2024, 9, 13, 12, 0));
}

#[test]
fn field_overflow_is_detected() {
    assert!(CronField::overflows("1/4294967295", 0, 59));
    assert!(!CronField::overflows("*/4294967295", 0, 59));
    assert!(!CronField::overflows("*/5", 0, 59));
    let f = CronField::parse("*/4294967295", 0, 59).unwrap();
    assert!(f.matches(0));
    assert!(!f.matches(1));
}

#[test]
fn documented_expressions() {
    let from = dt(2024, 1, 15, 10, 7);
    let every_minute = Schedule::parse("* * * * *").unwrap().next_occurrence(&from).unwrap();
    assert_eq!(every_minute, dt(2024, 1, 15, 10, 8));
    let every_hour = Schedule::parse("0 * * * *").unwrap().next_occurrence(&from).unwrap();
    assert_eq!(every_hour, dt(2024, 1, 15, 11, 0));
    let morning = Schedule::parse("30 8 * * *").unwrap().next_occurrence(&from).unwrap();
    assert_eq!(morning, dt(2024, 1, 16, 8, 30));
    let quarter = Schedule::parse("*/15 * * * *").unwrap().next_occurrence(&from).unwrap();
    assert_eq!(quarter, dt(2024, 1, 15, 10, 15));
    let monthly = Schedule::parse("@monthly").unwrap().next_occurrence(&from).unwrap();
    assert_eq!(monthly, dt(2024, 2, 1, 0, 0));
}

#[test]
fn search_steps_check_month_then_day_then_hour_then_minute() {
    let f = |s: &str, min: u32, max: u32| CronField::parse(s, min, max).unwrap();
    let (mi, h, dm, mo, dw) = (f("30", 0, 59), f("14", 0, 23), f("15", 1, 31), f("1", 1, 12), f("*", 0, 6));
    // 2024-01-15 is a Monday
    assert_eq!(advance_for(&mi, &h, &dm, &mo, &dw, &dt(2024, 2, 15, 14, 30)), Advance::NextMonth);
    assert_eq!(advance_for(&mi, &h, &dm, &mo, &dw, &dt(2024, 1, 14, 14, 30)), Advance::NextDay);
    assert_eq!(advance_for(&mi, &h, &dm, &mo, &dw, &dt(2024, 1, 15, 13, 30)), Advance::NextHour);
    assert_eq!(advance_for(&mi, &h, &dm, &mo, &dw, &dt(2024, 1, 15, 14, 29)), Advance::NextMinute);
    assert_eq!(advance_for(&mi, &h, &dm, &mo, &dw, &dt(2024, 1, 15, 14, 30)), Advance::Found);
    let sunday = f("0", 0, 6);
    assert_eq!(advance_for(&mi, &h, &dm, &mo, &sunday, &dt(2024, 1, 15, 14, 30)), Advance::NextDay);
}

#[test]
fn impossible_days_never_fire() {
    let s = Schedule::parse("0 0 30 2 *").unwrap();
    assert_eq!(s.next_occurrence(&dt(2024, 1, 15, 10, 0)), None);
}

#[test]
fn the_month_step_moves_to_the_first_of_the_next_month() {
    let s = Schedule::parse("0 0 * 3 *").unwrap();
    assert_eq!(s.next_occurrence(&dt(2024, 1, 31, 10, 0)), Some(dt(2024, 3, 1, 0, 0)));
    assert_eq!(s.next_occurrence(&dt(2024, 1, 15, 10, 0)), Some(dt(2024, 3, 1, 0, 0)));
    let june = Schedule::parse("0 12 15 6 *").unwrap();
    assert_eq!(june.next_occurrence(&dt(2024, 1, 31, 10, 0)), Some(dt(2024, 6, 15, 12, 0)));
}

#[test]
fn each_step_moves_to_the_next_candidate() {
    let f = |s: &str, min: u32, max: u32| CronField::parse(s, min, max).unwrap();
    let (mi, h, dm, mo, dw) = (f("30", 0, 59), f("14", 0, 23), f("15", 1, 31), f("1", 1, 12), f("*", 0, 6));
    let next = |t: LocalDateTime| next_candidate(&mi, &h, &dm, &mo, &dw, &t);
    assert_eq!(next(dt(2024, 2, 29, 14, 30)), Some(dt(2024, 3, 1, 0, 0)));
    assert_eq!(next(dt(2024, 12, 31, 14, 30)), Some(dt(2025, 1, 1, 0, 0)));
    assert_eq!(next(dt(2024, 1, 14, 9, 45)), Some(dt(2024, 1, 15, 0, 0)));
    assert_eq!(next(dt(2024, 1, 15, 13, 45)), Some(dt(2024, 1, 15, 14, 0)));
    assert_eq!(next(dt(2024, 1, 15, 14, 29)), Some(dt(2024, 1, 15, 14, 30)));
}
