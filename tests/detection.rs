use aki_monitor::detection::Detection;
use aki_monitor::patient::Patient;

const T0: i64 = 1700006400;
const DAY: i64 = 86400;

fn patient_with(readings: &[(i64, u32)]) -> Patient {
    let mut p = Patient::with_id(42, "Ada".to_string());
    for &(t, v) in readings {
        p.upsert(t, v);
    }
    p
}

#[test]
fn acute_rise_below_ratio_stays_at_stage_zero() {
    let p = patient_with(&[(T0, 1000), (T0 + DAY, 1400)]);
    let d = Detection::detect(&p);
    assert_eq!(d.aki_score, 0);
    assert_eq!(d.timestamp, T0 + DAY);
    assert_eq!(d.max_level, 1400);
    assert_eq!(d.baseline, 1000);
    assert_eq!(d.patient_id, 42);
}

#[test]
fn acute_rise_to_one_and_a_half_times_is_stage_one() {
    let p = patient_with(&[(T0, 1000), (T0 + DAY, 1600)]);
    let d = Detection::detect(&p);
    assert_eq!(d.aki_score, 1);
    assert_eq!(d.timestamp, T0 + DAY);
    assert_eq!(d.max_level, 1600);
}

#[test]
fn weekly_rise_to_two_and_a_half_is_stage_two() {
    let p = patient_with(&[(T0, 1000), (T0 + 3 * DAY, 2500)]);
    let d = Detection::detect(&p);
    assert_eq!(d.aki_score, 2);
    assert_eq!(d.timestamp, T0 + 3 * DAY);
    assert_eq!(d.baseline, 1000);
    assert_eq!(d.max_level, 2500);
}

#[test]
fn rise_to_three_and_a_half_on_day_five_is_stage_three() {
    let p = patient_with(&[(T0, 1000), (T0 + 5 * DAY, 3500)]);
    let d = Detection::detect(&p);
    assert_eq!(d.aki_score, 3);
    assert_eq!(d.timestamp, T0 + 5 * DAY);
}

#[test]
fn exactly_three_times_baseline_is_stage_three() {
    let p = patient_with(&[(T0, 1000), (T0 + DAY, 3000)]);
    assert_eq!(Detection::detect(&p).aki_score, 3);
}

#[test]
fn exactly_twice_baseline_is_stage_two() {
    let p = patient_with(&[(T0, 1000), (T0 + DAY, 2000)]);
    assert_eq!(Detection::detect(&p).aki_score, 2);
}

#[test]
fn acute_rise_of_exactly_three_tenths_qualifies() {
    let p = patient_with(&[(T0, 1000), (T0 + 2 * DAY, 1300)]);
    let d = Detection::detect(&p);
    assert_eq!(d.timestamp, T0 + 2 * DAY);
    assert_eq!(d.aki_score, 0);
}

#[test]
fn acute_window_ends_after_48_hours() {
    // 1.3 is a rise of 0.3 but 48 hours and a second later; below 1.5 times baseline.
    let p = patient_with(&[(T0, 1000), (T0 + 2 * DAY + 1, 1300)]);
    assert_eq!(Detection::detect(&p), Detection::new());
}

#[test]
fn weekly_window_ends_after_seven_days() {
    let p = patient_with(&[(T0, 1000), (T0 + 7 * DAY + 1, 3500)]);
    assert_eq!(Detection::detect(&p), Detection::new());
    let q = patient_with(&[(T0, 1000), (T0 + 7 * DAY, 3500)]);
    assert_eq!(Detection::detect(&q).aki_score, 3);
}

#[test]
fn first_pair_wins_over_a_more_severe_one() {
    let p = patient_with(&[(T0, 1000), (T0 + DAY, 1400), (T0 + 2 * DAY, 3500)]);
    let d = Detection::detect(&p);
    assert_eq!(d.timestamp, T0 + DAY);
    assert_eq!(d.aki_score, 0);
}

#[test]
fn acute_rule_is_checked_before_weekly_rule() {
    // Weekly pair (day 0, day 4) comes first in scan order, but the acute pair
    // (day 4, day 5) is reported.
    let p = patient_with(&[(T0, 1000), (T0 + 4 * DAY, 2600), (T0 + 5 * DAY, 3100)]);
    let d = Detection::detect(&p);
    assert_eq!(d.timestamp, T0 + 5 * DAY);
    assert_eq!(d.max_level, 3100);
    assert_eq!(d.aki_score, 3);
}

#[test]
fn baseline_is_the_lowest_level() {
    let p = patient_with(&[(T0, 1200), (T0 + DAY, 900), (T0 + 2 * DAY, 1400)]);
    let d = Detection::detect(&p);
    assert_eq!(d.baseline, 900);
    assert_eq!(d.timestamp, T0 + 2 * DAY);
    assert_eq!(d.aki_score, 1);
}

#[test]
fn empty_series_gives_no_detection() {
    let p = Patient::with_id(1, "Empty".to_string());
    let d = Detection::detect(&p);
    assert_eq!(d, Detection::new());
    assert_eq!(d.aki_score, 0);
    assert_eq!(d.patient_id, 0);
}

#[test]
fn steady_series_gives_no_detection() {
    let p = patient_with(&[(T0, 1000), (T0 + DAY, 1100), (T0 + 2 * DAY, 1000)]);
    assert_eq!(Detection::detect(&p), Detection::new());
}

#[test]
fn detect_twice_gives_the_same_verdict() {
    let p = patient_with(&[(T0, 1000), (T0 + DAY, 1600), (T0 + 3 * DAY, 2600)]);
    let first = Detection::detect(&p);
    let second = Detection::detect(&p);
    assert_eq!(first, second);
}
