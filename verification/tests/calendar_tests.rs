use omegaflow::calendar::model_date;

#[test]
fn leap_day_exists_only_in_leap_years() {
    assert!(model_date(2024, 366).is_some());
    assert!(model_date(2000, 366).is_some());
    assert!(model_date(2023, 366).is_none());
    assert!(model_date(1900, 366).is_none());
}

#[test]
fn day_zero_and_past_the_year_are_refused() {
    assert!(model_date(2025, 0).is_none());
    assert!(model_date(2025, 367).is_none());
    assert!(model_date(2025, 1).is_some());
    assert!(model_date(2025, 365).is_some());
}

#[test]
fn date_is_the_given_day() {
    let d = model_date(2025, 32).unwrap();
    assert_eq!(d.year(), 2025);
    assert_eq!(d.ordinal(), 32);
    assert_eq!(u8::from(d.month()), 2);
    assert_eq!(d.day(), 1);
}

#[test]
fn same_day_gives_same_date() {
    assert_eq!(model_date(2026, 100), model_date(2026, 100));
    assert_ne!(model_date(2026, 100), model_date(2026, 101));
}
