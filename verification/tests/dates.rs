use reconcile::datetime::{
    checked_datetime_key, days_from_civil, parse_component, parse_datetime_key,
    parse_tail_component, MINUTES_PER_DAY,
};

#[test]
fn parses_datetime_keys() {
    let first = parse_datetime_key("3/14/23 0:00").unwrap();
    let second = parse_datetime_key("3/15/23 0:00").unwrap();
    assert_eq!(second - first, MINUTES_PER_DAY);
}

#[test]
fn counts_minutes_since_1970() {
    assert_eq!(parse_datetime_key("1/1/70 0:00").unwrap(), 0);
    assert_eq!(parse_datetime_key("1/2/70 1:01").unwrap(), 1_440 + 61);
    assert_eq!(parse_datetime_key("1/1/00 0:00").unwrap(), 10_957 * 1_440);
    assert_eq!(
        parse_datetime_key("3/14/23 23:59").unwrap(),
        19_430 * 1_440 + 1_439
    );
}

#[test]
fn two_digit_years_turn_over_at_seventy() {
    let latest = parse_datetime_key("12/31/69 23:59").unwrap();
    let earliest = parse_datetime_key("1/1/70 0:00").unwrap();
    assert_eq!(earliest, 0);
    assert_eq!(latest, days_from_civil(2069, 12, 31) * 1_440 + 1_439);
    // a year written in full is counted from 1900 all the same
    assert_eq!(
        parse_datetime_key("1/1/2023 0:00").unwrap(),
        days_from_civil(3923, 1, 1) * 1_440
    );
}

#[test]
fn refuses_what_is_no_datetime() {
    for raw in ["", "3/14/23", "3-14-23 0:00", "3/14/23 0", "/14/23 0:00", "3/14/23 0:00 "] {
        assert_eq!(
            parse_datetime_key(raw).unwrap_err().message,
            "invalid datetime component"
        );
    }
    for raw in ["13/1/23 0:00", "0/1/23 0:00", "1/0/23 0:00", "1/32/23 0:00", "1/1/23 24:00", "1/1/23 0:60"] {
        assert_eq!(
            parse_datetime_key(raw).unwrap_err().message,
            format!("invalid datetime: {raw}")
        );
    }
}

#[test]
fn days_beyond_the_end_of_a_month_run_on() {
    assert_eq!(
        parse_datetime_key("2/31/23 0:00").unwrap(),
        parse_datetime_key("3/3/23 0:00").unwrap()
    );
}

#[test]
fn notices_dates_that_are_too_large() {
    assert_eq!(checked_datetime_key("4294967296/1/23 0:00").unwrap(), None);
    assert_eq!(checked_datetime_key("1/1/2147483647 0:00").unwrap(), None);
    assert_eq!(checked_datetime_key("1/1/99999999 0:00").unwrap(), None);
    // the largest number of 32 bits is taken as minus one
    assert_eq!(
        checked_datetime_key("1/1/4294967295 0:00").unwrap(),
        Some(days_from_civil(1899, 1, 1) * 1_440)
    );
    assert_eq!(
        checked_datetime_key("1/1/23 0:00").unwrap(),
        Some(19_358 * 1_440)
    );
}

#[test]
fn numbers_days_by_the_calendar() {
    assert_eq!(days_from_civil(1970, 1, 1), 0);
    assert_eq!(days_from_civil(1969, 12, 31), -1);
    assert_eq!(days_from_civil(2000, 2, 29), 11_016);
    assert_eq!(days_from_civil(2000, 3, 1), 11_017);
    assert_eq!(days_from_civil(1900, 3, 1) - days_from_civil(1900, 2, 28), 1);
    assert_eq!(days_from_civil(2024, 3, 1) - days_from_civil(2024, 2, 28), 2);
    assert_eq!(days_from_civil(0, 3, 1), -719_468);
    assert_eq!(days_from_civil(-400, 3, 1), -719_468 - 146_097);
    assert_eq!(days_from_civil(2024, 1, 1) - days_from_civil(2023, 1, 1), 365);
    assert_eq!(days_from_civil(2025, 1, 1) - days_from_civil(2024, 1, 1), 366);
}

#[test]
fn reads_components_one_by_one() {
    let bytes = b"12/345";
    let mut idx = 0;
    assert_eq!(parse_component(bytes, &mut idx, b'/').unwrap(), 12);
    assert_eq!(idx, 3);
    assert_eq!(parse_tail_component(bytes, &mut idx).unwrap(), 345);
    assert_eq!(idx, 6);
    let mut idx = 0;
    assert!(parse_component(bytes, &mut idx, b' ').is_err());
    assert_eq!(idx, 2);
    let mut idx = 0;
    assert!(parse_tail_component(bytes, &mut idx).is_err());
    let mut idx = 9;
    assert!(parse_component(bytes, &mut idx, b'/').is_err());
    assert_eq!(idx, 9);
}
