use taskforge::time::LocalDateTime;

#[test]
fn calendar_days_that_do_not_exist() {
    assert!(LocalDateTime::from_ymd_hms(2023, 2, 29, 0, 0, 0).is_none());
    assert!(LocalDateTime::from_ymd_hms(2024, 4, 31, 0, 0, 0).is_none());
    let leap = LocalDateTime::from_ymd_hms(2024, 2, 29, 12, 0, 0).unwrap();
    assert!(leap.with_year(2023).is_none());
    assert_eq!(leap.with_year(2028).unwrap().day(), 29);
    let jan31 = LocalDateTime::from_ymd_hms(2024, 1, 31, 12, 0, 0).unwrap();
    assert!(jan31.with_month(4).is_none());
    assert_eq!(jan31.with_month(3).unwrap().month(), 3);
    let april = LocalDateTime::from_ymd_hms(2024, 4, 10, 12, 0, 0).unwrap();
    assert!(april.with_day(31).is_none());
    assert_eq!(april.with_day(30).unwrap().day(), 30);
}

#[test]
fn clock_fields_out_of_range() {
    let t = LocalDateTime::from_ymd_hms(2024, 4, 10, 12, 0, 0).unwrap();
    assert!(t.with_hour(24).is_none());
    assert!(t.with_minute(60).is_none());
    assert!(t.with_second(60).is_none());
    assert_eq!(t.with_hour(13).unwrap().hour(), 13);
    assert_eq!(t.with_nanosecond(5).unwrap().nanosecond(), 5);
}

#[test]
fn adding_seconds_past_the_range_fails() {
    let t = LocalDateTime::from_timestamp(8_210_266_876_000, 0).unwrap();
    assert!(t.checked_add_seconds(799).is_some());
    assert!(t.checked_add_seconds(800).is_none());
}

#[test]
fn the_range_of_instants() {
    assert!(LocalDateTime::from_timestamp(-8_334_601_228_800, 0).is_some());
    assert!(LocalDateTime::from_timestamp(-8_334_601_228_801, 0).is_none());
    assert!(LocalDateTime::from_timestamp(8_210_266_876_799, 999_999_999).is_some());
    assert!(LocalDateTime::from_timestamp(8_210_266_876_800, 0).is_none());
    let epoch = LocalDateTime::from_timestamp(0, 0).unwrap();
    assert!(epoch.checked_add_seconds(-8_334_601_228_800).is_some());
    assert!(epoch.checked_add_seconds(-8_334_601_228_801).is_none());
}
