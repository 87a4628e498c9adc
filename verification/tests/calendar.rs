use wk::calendar::InfoPeriod;

fn starts(now: i64) -> (i64, i64, i64, i64) {
    (
        InfoPeriod::Day.window_start(now),
        InfoPeriod::Week.window_start(now),
        InfoPeriod::Month.window_start(now),
        InfoPeriod::Year.window_start(now),
    )
}

#[test]
fn labels_are_the_words_for_the_periods() {
    assert_eq!(InfoPeriod::Day.label(), "day");
    assert_eq!(InfoPeriod::Week.label(), "week");
    assert_eq!(InfoPeriod::Month.label(), "month");
    assert_eq!(InfoPeriod::Year.label(), "year");
}

#[test]
fn the_period_of_a_report_that_names_none_is_the_day() {
    assert_eq!(InfoPeriod::default(), InfoPeriod::Day);
}

#[test]
fn windows_on_an_ordinary_day() {
    // 2023-11-14 22:13:20
    assert_eq!(starts(1700000000), (1699920000, 1699401600, 1698796800, 1672531200));
}

#[test]
fn windows_at_the_epoch() {
    assert_eq!(starts(0), (0, -518400, 0, 0));
    assert_eq!(starts(86399), (0, -518400, 0, 0));
    assert_eq!(starts(86400), (86400, -432000, 0, 0));
}

#[test]
fn windows_on_the_29th_of_february() {
    // 2024-02-29 12:00:00
    assert_eq!(starts(1709208000), (1709164800, 1708646400, 1706745600, 1704067200));
}

#[test]
fn windows_at_the_first_second_of_a_month() {
    // 2024-03-01 00:00:00
    assert_eq!(starts(1709251200), (1709251200, 1708732800, 1709251200, 1704067200));
}

#[test]
fn windows_on_the_last_second_of_a_leap_year() {
    // 2000-12-31 23:59:59
    assert_eq!(starts(978307199), (978220800, 977702400, 975628800, 946684800));
}

#[test]
fn windows_in_a_century_year_without_a_leap_day() {
    // 2100-03-01 05:00:00
    assert_eq!(starts(4107560400), (4107542400, 4107024000, 4107542400, 4102444800));
}

#[test]
fn windows_early_in_the_calendar() {
    // 1972-12-31 01:02:03
    assert_eq!(starts(94611723), (94608000, 94089600, 92016000, 63072000));
}

#[test]
fn windows_beyond_one_run_of_400_years() {
    // 2400-02-29 00:00:01
    assert_eq!(starts(13574563201), (13574563200, 13574044800, 13572144000, 13569465600));
    // 9999-12-31 23:59:59
    assert_eq!(starts(253402300799), (253402214400, 253401696000, 253399622400, 253370764800));
}

#[test]
fn windows_at_the_largest_time() {
    let now = i64::MAX;
    let (day, week, month, year) = starts(now);
    assert_eq!(day, now - now % 86400);
    assert_eq!(week, day - 6 * 86400);
    assert!(year <= month && month <= day && day <= now);
    assert!(day - month < 31 * 86400);
    assert!(day - year < 366 * 86400);
}
