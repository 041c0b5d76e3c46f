use days_left::day_count;
use days_left::countdown::{SECONDS_PER_DAY, TARGET_DAY, TARGET_MONTH, TARGET_YEAR};

#[test]
fn half_a_day_before_the_target_reads_one() {
    // now = 2023-06-29T12:00:00, target = 2023-06-30T00:00:00: twelve
    // hours ahead truncates to zero whole days, reported as day 1.
    assert_eq!(day_count(43_200), 1);
}

#[test]
fn on_the_target_instant_reads_one() {
    assert_eq!(day_count(0), 1);
}

#[test]
fn one_day_past_the_target_reads_zero() {
    // now = 2023-07-01T00:00:00: a full day past the target.
    assert_eq!(day_count(-86_400), 0);
}

#[test]
fn truncation_is_toward_zero_on_both_sides() {
    let secs = SECONDS_PER_DAY as i64;
    assert_eq!(day_count(secs - 1), 1);
    assert_eq!(day_count(secs), 2);
    assert_eq!(day_count(-(secs - 1)), 1);
    assert_eq!(day_count(-secs - 1), 0);
    assert_eq!(day_count(-2 * secs), -1);
}

#[test]
fn extreme_deltas_stay_in_range() {
    assert_eq!(day_count(i64::MAX), i64::MAX / 86_400 + 1);
    assert_eq!(day_count(i64::MIN), i64::MIN / 86_400 + 1);
}

fn delta_seconds(now: chrono::NaiveDateTime) -> i64 {
    let target = chrono::NaiveDate::from_ymd_opt(TARGET_YEAR, TARGET_MONTH, TARGET_DAY)
        .unwrap()
        .and_hms_opt(0, 0, 0)
        .unwrap();
    (target - now).num_seconds()
}

#[test]
fn date_delta_from_calendar_instants() {
    let noon_before = chrono::NaiveDate::from_ymd_opt(2023, 6, 29)
        .unwrap()
        .and_hms_opt(12, 0, 0)
        .unwrap();
    assert_eq!(day_count(delta_seconds(noon_before)), 1);

    let on_target = chrono::NaiveDate::from_ymd_opt(2023, 6, 30)
        .unwrap()
        .and_hms_opt(0, 0, 0)
        .unwrap();
    assert_eq!(day_count(delta_seconds(on_target)), 1);

    let day_after = chrono::NaiveDate::from_ymd_opt(2023, 7, 1)
        .unwrap()
        .and_hms_opt(0, 0, 0)
        .unwrap();
    assert_eq!(day_count(delta_seconds(day_after)), 0);
}

#[test]
fn target_is_the_last_day_of_june() {
    assert_eq!(TARGET_YEAR, 2023);
    assert_eq!(TARGET_MONTH, 6);
    assert_eq!(TARGET_DAY, 30);
}
