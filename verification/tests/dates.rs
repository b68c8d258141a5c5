use virtualfs::dates::{
    date_stamp, listing_date_stamp_in, stamp_of, stamp_of_first, CivilDate, CivilTime, DateStyle,
};

fn local(year: i32, month: u32, day: u32, hour: u32, minute: u32, second: u32) -> u64 {
    let naive = chrono::NaiveDate::from_ymd_opt(year, month, day)
        .unwrap()
        .and_hms_opt(hour, minute, second)
        .unwrap();
    let instant = chrono::TimeZone::from_local_datetime(&chrono::Local, &naive).single();
    instant.map(|t| t.timestamp() as u64).unwrap_or(0)
}

#[test]
fn the_first_instant_that_is_known_counts() {
    assert_eq!(stamp_of_first(&[None, Some(7), Some(8)]), 7);
    assert_eq!(stamp_of_first(&[None, None]), 0);
    assert_eq!(stamp_of_first(&[]), 0);
    assert_eq!(stamp_of(-1), u64::MAX);
}

#[test]
fn a_date_begins_at_midnight() {
    let date = CivilDate { year: 2021, month: 6, day: 28 };
    assert_eq!(
        date.midnight(),
        CivilTime { year: 2021, month: 6, day: 28, hour: 0, minute: 0, second: 0 }
    );
}

#[test]
fn every_reading_of_a_listed_date_is_a_local_time() {
    assert_eq!(listing_date_stamp_in("2024-01-15 10:30:59", 1999), local(2024, 1, 15, 10, 30, 59));
    assert_eq!(listing_date_stamp_in("2024-01-15 10:30", 1999), local(2024, 1, 15, 10, 30, 0));
    assert_eq!(listing_date_stamp_in("Mar 10 13:45", 1999), local(1999, 3, 10, 13, 45, 0));
    assert_eq!(listing_date_stamp_in("Mar 10 2021", 1999), local(2021, 3, 10, 0, 0, 0));
    assert_eq!(listing_date_stamp_in("Feb 29 12:00", 2023), 0);
    assert_eq!(listing_date_stamp_in("Feb 29 12:00", 2024), local(2024, 2, 29, 12, 0, 0));
    assert_eq!(listing_date_stamp_in("yesterday", 1999), 0);
}

#[test]
fn a_style_decides_which_dates_are_read() {
    assert_eq!(date_stamp(DateStyle::Numeric, "2024-01-15 10:30"), local(2024, 1, 15, 10, 30, 0));
    assert_eq!(date_stamp(DateStyle::Numeric, "Mar 10 2021"), 0);
    assert_eq!(date_stamp(DateStyle::Listing, "Mar 10 2021"), local(2021, 3, 10, 0, 0, 0));
}

#[test]
fn a_date_two_days_later_is_a_later_instant() {
    let first = date_stamp(DateStyle::Numeric, "2024-03-30 12:00");
    let second = date_stamp(DateStyle::Numeric, "2024-04-01 12:00");
    assert!(first < second);
    assert!(second - first < 3 * 86_400);
}

#[test]
fn a_date_before_the_epoch_wraps_around() {
    assert_eq!(date_stamp(DateStyle::Numeric, "1950-01-01 12:00"), local(1950, 1, 1, 12, 0, 0));
    assert!(date_stamp(DateStyle::Numeric, "1950-01-01 12:00") > 1 << 63);
}

#[test]
fn a_day_may_be_made_two_wide() {
    let expected = local(1999, 6, 1, 14, 12, 0);
    assert_eq!(listing_date_stamp_in("Jun 1 14:12", 1999), expected);
    assert_eq!(listing_date_stamp_in("Jun  1 14:12", 1999), expected);
    assert_eq!(listing_date_stamp_in("Dec  9 2021", 1999), local(2021, 12, 9, 0, 0, 0));
}

#[test]
fn every_month_has_its_name() {
    let names =
        ["Jan", "Feb", "Mar", "Apr", "May", "Jun", "Jul", "Aug", "Sep", "Oct", "Nov", "Dec"];
    for (i, name) in names.iter().enumerate() {
        let month = i as u32 + 1;
        let text = format!("{} 17 03:04", name);
        assert_eq!(listing_date_stamp_in(&text, 2023), local(2023, month, 17, 3, 4, 0));
    }
}

#[test]
fn a_written_instant_is_read_as_that_instant() {
    for instant in [0i64, 951_782_400, 1_718_452_800, 4_102_444_799] {
        let shown = chrono::TimeZone::timestamp_opt(&chrono::Local, instant, 0).unwrap();
        let text = shown.format("%Y-%m-%d %H:%M:%S").to_string();
        assert_eq!(date_stamp(DateStyle::Numeric, &text), instant as u64);
        assert_eq!(date_stamp(DateStyle::Listing, &text), instant as u64);
    }
}
