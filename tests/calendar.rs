use aki_monitor::calendar::{civil_date, same_day, unix_time_to_human_readable};

#[test]
fn epoch_is_first_of_january_1970() {
    assert_eq!(unix_time_to_human_readable(0), "1/1/1970");
}

#[test]
fn leap_day_is_recognised() {
    assert_eq!(unix_time_to_human_readable(951782400), "29/2/2000");
    let d = civil_date(1709164800);
    assert_eq!((d.year, d.month, d.day), (2024, 2, 29));
}

#[test]
fn last_day_of_a_year() {
    assert_eq!(unix_time_to_human_readable(1704067199), "31/12/2023");
    assert_eq!(unix_time_to_human_readable(1735603200), "31/12/2024");
    assert_eq!(unix_time_to_human_readable(1735689600), "1/1/2025");
}

#[test]
fn century_years_are_not_leap_unless_divisible_by_400() {
    // 2100-03-01 00:00:00 UTC
    assert_eq!(unix_time_to_human_readable(4107542400), "1/3/2100");
    assert_eq!(unix_time_to_human_readable(4107542400 - 1), "28/2/2100");
}

#[test]
fn timestamps_before_the_epoch() {
    assert_eq!(unix_time_to_human_readable(-1), "31/12/1969");
    assert_eq!(unix_time_to_human_readable(-86400), "31/12/1969");
    assert_eq!(unix_time_to_human_readable(-86401), "30/12/1969");
    assert_eq!(unix_time_to_human_readable(-31536000), "1/1/1969");
}

#[test]
fn same_day_compares_calendar_dates() {
    assert!(same_day(0, 86399));
    assert!(!same_day(86399, 86400));
    assert!(same_day(1700006400, 1700006400 + 86399));
    assert!(!same_day(1700006400 - 1, 1700006400));
    assert!(same_day(-1, -86400));
    assert!(!same_day(-1, 0));
}
