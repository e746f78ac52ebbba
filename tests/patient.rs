use aki_monitor::detection::Detection;
use aki_monitor::patient::Patient;

const T0: i64 = 1700006400;
const DAY: i64 = 86400;

#[test]
fn first_reading_is_recorded() {
    let mut p = Patient::with_id(7, "Bo".to_string());
    p.upsert(T0 + 100, 1000);
    assert_eq!(p.levels(), &vec![(T0 + 100, 1000)]);
    assert_eq!(p.id(), 7);
    assert_eq!(p.name(), "Bo");
}

#[test]
fn same_day_reading_overwrites_latest_entry() {
    let mut p = Patient::with_id(7, "Bo".to_string());
    p.upsert(T0 + 100, 1000);
    p.upsert(T0 + 5000, 1250);
    assert_eq!(p.levels(), &vec![(T0 + 100, 1250)]);
}

#[test]
fn new_day_reading_adds_one_entry() {
    let mut p = Patient::with_id(7, "Bo".to_string());
    p.upsert(T0, 1000);
    p.upsert(T0 + DAY, 1100);
    assert_eq!(p.levels().len(), 2);
    p.upsert(T0 + 3 * DAY, 1200);
    assert_eq!(p.levels(), &vec![(T0, 1000), (T0 + DAY, 1100), (T0 + 3 * DAY, 1200)]);
}

#[test]
fn older_reading_on_another_day_is_kept_in_order() {
    let mut p = Patient::with_id(7, "Bo".to_string());
    p.upsert(T0 + 5 * DAY, 1000);
    p.upsert(T0, 900);
    assert_eq!(p.levels(), &vec![(T0, 900), (T0 + 5 * DAY, 1000)]);
    p.upsert(T0 + 2 * DAY, 950);
    assert_eq!(p.levels(), &vec![(T0, 900), (T0 + 2 * DAY, 950), (T0 + 5 * DAY, 1000)]);
}

#[test]
fn older_reading_at_a_held_timestamp_replaces_it() {
    let mut p = Patient::with_id(7, "Bo".to_string());
    p.upsert(T0, 900);
    p.upsert(T0 + 5 * DAY, 1000);
    p.upsert(T0, 950);
    assert_eq!(p.levels(), &vec![(T0, 950), (T0 + 5 * DAY, 1000)]);
}

#[test]
fn insert_level_keeps_timestamps_ascending() {
    let mut p = Patient::with_id(3, "Cy".to_string());
    p.insert_level(30, 3);
    p.insert_level(10, 1);
    p.insert_level(20, 2);
    p.insert_level(20, 5);
    assert_eq!(p.levels(), &vec![(10, 1), (20, 5), (30, 3)]);
}

#[test]
fn duplicate_copies_everything() {
    let mut p = Patient::with_id(3, "Cy".to_string());
    p.upsert(T0, 1000);
    let q = p.duplicate();
    assert_eq!(q.id(), 3);
    assert_eq!(q.name(), "Cy");
    assert_eq!(q.levels(), p.levels());
}

#[test]
fn new_patient_has_a_salted_clock_identity() {
    let p = Patient::new("Dee".to_string());
    assert_eq!(p.name(), "Dee");
    assert!(p.levels().is_empty());
    assert!(p.id() > 1_600_000_000_000);
    assert!(p.id() % 1000 < 999);
}

#[test]
fn replayed_readings_give_the_same_series_and_verdict() {
    let calls = [(T0, 1000), (T0 + 600, 1050), (T0 + DAY, 1700), (T0 + 4 * DAY, 2600)];
    let mut a = Patient::with_id(1, "A".to_string());
    let mut b = Patient::with_id(2, "B".to_string());
    for &(t, v) in calls.iter() {
        a.upsert(t, v);
    }
    for &(t, v) in calls.iter() {
        b.upsert(t, v);
    }
    assert_eq!(a.levels(), b.levels());
    let da = Detection::detect(&a);
    let db = Detection::detect(&b);
    assert_eq!(da.timestamp, db.timestamp);
    assert_eq!(da.baseline, db.baseline);
    assert_eq!(da.max_level, db.max_level);
    assert_eq!(da.aki_score, db.aki_score);
    assert_eq!(da.aki_score, 1);
}
