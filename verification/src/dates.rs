//! The dates that servers and archives write, as instants of the machine's time zone.

use vstd::prelude::*;

use crate::decimal::{decimal, digit, signed_decimal, signed_decimal_text};
use crate::text::joined3;

verus! {

/// A date and a time of day, as a wall clock shows them.
#[derive(Clone, Copy, Debug, PartialEq, Eq, Structural)]
pub struct CivilTime {
    pub year: i32,
    pub month: u32,
    pub day: u32,
    pub hour: u32,
    pub minute: u32,
    pub second: u32,
}

/// A date.
#[derive(Clone, Copy, Debug, PartialEq, Eq, Structural)]
pub struct CivilDate {
    pub year: i32,
    pub month: u32,
    pub day: u32,
}

impl CivilDate {
    /// The first moment of the day.
    pub open spec fn start(self) -> CivilTime {
        CivilTime {
            year: self.year,
            month: self.month,
            day: self.day,
            hour: 0,
            minute: 0,
            second: 0,
        }
    }

    /// The first moment of the day.
    pub fn midnight(self) -> (time: CivilTime)
        ensures
            time == self.start(),
    {
        CivilTime {
            year: self.year,
            month: self.month,
            day: self.day,
            hour: 0,
            minute: 0,
            second: 0,
        }
    }
}

/// Whether a year of the Gregorian calendar has a 29th of February.
pub open spec fn is_leap(year: int) -> bool {
    year % 4 == 0 && (year % 100 != 0 || year % 400 == 0)
}

/// How many days a month has.
pub open spec fn days_in_month(year: int, month: int) -> int {
    if month == 2 {
        if is_leap(year) {
            29
        } else {
            28
        }
    } else if month == 4 || month == 6 || month == 9 || month == 11 {
        30
    } else {
        31
    }
}

/// How many days of a year lie before a month.
pub open spec fn days_before_month(year: int, month: int) -> int
    decreases month,
{
    if month <= 1 {
        0
    } else {
        days_before_month(year, month - 1) + days_in_month(year, month - 1)
    }
}

/// How many days lie between the first of January 1970 and that of a year.
pub open spec fn days_before_year(year: int) -> int {
    365 * (year - 1970) + ((year + 3) / 4 - (year + 99) / 100 + (year + 399) / 400) - 478
}

impl CivilTime {
    /// Whether the calendar has the date and the clock the time.
    pub open spec fn exists_on_the_calendar(self) -> bool {
        &&& 1 <= self.month <= 12
        &&& 1 <= self.day <= days_in_month(self.year as int, self.month as int)
        &&& self.hour < 24
        &&& self.minute < 60
        &&& self.second < 60
    }

    /// The seconds since the start of 1970 at which a clock without any offset shows this
    /// time.
    pub open spec fn unix_seconds(self) -> int {
        let days = days_before_year(self.year as int) + days_before_month(
            self.year as int,
            self.month as int,
        ) + self.day - 1;
        days * 86400 + self.hour * 3600 + self.minute * 60 + self.second
    }

    /// Whether an instant can be this time in some time zone: no zone is a whole day ahead
    /// or behind.
    pub open spec fn can_be(self, instant: i64) -> bool {
        self.exists_on_the_calendar() && -86400 < instant - self.unix_seconds() < 86400
    }

    /// Whether the year is written with four digits.
    pub open spec fn has_plain_year(self) -> bool {
        0 <= self.year <= 9999
    }
}

/// A number below a hundred with two digits.
pub open spec fn two_digits(n: int) -> Seq<char> {
    seq![digit((n / 10) as nat), digit((n % 10) as nat)]
}

/// A time as `2024-01-15 10:30`.
pub open spec fn iso_minutes(time: CivilTime) -> Seq<char> {
    two_digits(time.year as int / 100) + two_digits(time.year as int % 100) + seq!['-']
        + two_digits(time.month as int) + seq!['-'] + two_digits(time.day as int) + seq![' ']
        + two_digits(time.hour as int) + seq![':'] + two_digits(time.minute as int)
}

/// A time as `2024-01-15 10:30:00`.
pub open spec fn iso_seconds(time: CivilTime) -> Seq<char> {
    iso_minutes(time) + seq![':'] + two_digits(time.second as int)
}

/// Whether `text` is `time`, written with or, for a whole minute, without seconds.
pub open spec fn is_iso(text: Seq<char>, time: CivilTime) -> bool {
    &&& time.exists_on_the_calendar()
    &&& time.has_plain_year()
    &&& text == iso_seconds(time) || (time.second == 0 && text == iso_minutes(time))
}

/// The short name of a month.
pub open spec fn month_name(month: int) -> Seq<char> {
    if month == 1 {
        seq!['J', 'a', 'n']
    } else if month == 2 {
        seq!['F', 'e', 'b']
    } else if month == 3 {
        seq!['M', 'a', 'r']
    } else if month == 4 {
        seq!['A', 'p', 'r']
    } else if month == 5 {
        seq!['M', 'a', 'y']
    } else if month == 6 {
        seq!['J', 'u', 'n']
    } else if month == 7 {
        seq!['J', 'u', 'l']
    } else if month == 8 {
        seq!['A', 'u', 'g']
    } else if month == 9 {
        seq!['S', 'e', 'p']
    } else if month == 10 {
        seq!['O', 'c', 't']
    } else if month == 11 {
        seq!['N', 'o', 'v']
    } else {
        seq!['D', 'e', 'c']
    }
}

/// The month and the day of a time as `Jan 5`, or `Jan  5` with the day made two wide.
pub open spec fn month_and_day(time: CivilTime, wide: bool) -> Seq<char> {
    let blank = if wide && time.day < 10 {
        seq![' ', ' ']
    } else {
        seq![' ']
    };
    month_name(time.month as int) + blank + decimal(time.day as nat)
}

/// A time without its year as `Jan 5 10:30`.
pub open spec fn month_and_time(time: CivilTime, wide: bool) -> Seq<char> {
    month_and_day(time, wide) + seq![' '] + two_digits(time.hour as int) + seq![':'] + two_digits(
        time.minute as int,
    )
}

/// A date with its year as `Jan 5 2024`.
pub open spec fn month_and_year(time: CivilTime, wide: bool) -> Seq<char> {
    month_and_day(time, wide) + seq![' '] + two_digits(time.year as int / 100) + two_digits(
        time.year as int % 100,
    )
}

/// Whether `text` is `time`, a whole minute, written with the name of the month and without
/// the year.
pub open spec fn is_month_and_time(text: Seq<char>, time: CivilTime) -> bool {
    &&& time.exists_on_the_calendar()
    &&& time.has_plain_year()
    &&& time.second == 0
    &&& text == month_and_time(time, false) || text == month_and_time(time, true)
}

/// Whether `text` is `time`, the first moment of a day, written with the name of the month and
/// the year.
pub open spec fn is_month_and_year(text: Seq<char>, time: CivilTime) -> bool {
    &&& time.exists_on_the_calendar()
    &&& time.has_plain_year()
    &&& time.hour == 0 && time.minute == 0 && time.second == 0
    &&& text == month_and_year(time, false) || text == month_and_year(time, true)
}

/// Whether a text begins with a letter of the Latin alphabet.
pub open spec fn begins_with_letter(text: Seq<char>) -> bool {
    text.len() > 0 && ('a' <= text[0] <= 'z' || 'A' <= text[0] <= 'Z')
}

/// Whether a text holds no letter of the Latin alphabet.
pub open spec fn has_no_letter(text: Seq<char>) -> bool {
    forall|i: int|
        0 <= i < text.len() ==> !('a' <= (#[trigger] text[i]) <= 'z') && !('A' <= text[i] <= 'Z')
}

/// The format of `2024-01-15 10:30:00`.
pub const WITH_SECONDS: &'static str = "%Y-%m-%d %H:%M:%S";

/// The format of `2024-01-15 10:30`.
pub const WITHOUT_SECONDS: &'static str = "%Y-%m-%d %H:%M";

/// The format of `2024 Jan 15 10:30`.
pub const MONTH_NAME_AND_TIME: &'static str = "%Y %b %e %H:%M";

/// The format of `Jan 15 2024`.
pub const MONTH_NAME_AND_YEAR: &'static str = "%b %e %Y";

/// What `chrono::NaiveDateTime::parse_from_str` reads in a text by a format.
pub uninterp spec fn parsed_time(text: Seq<char>, format: Seq<char>) -> Option<CivilTime>;

/// Calls `chrono::NaiveDateTime::parse_from_str`. The outcome depends on the text and the
/// format alone, and is a time that the calendar has. The grammar is not written out but
/// for this: a text in the form that the format gives to a time is read as that time, a text
/// that is longer or shorter than its format is not read, nor is one that begins with a letter
/// where the format wants a year, one without letters where it wants the name of a month, or
/// one without a colon where it wants a time of day, and a year that stands in front is the
/// year of what is read.
#[verifier::external_body]
pub(crate) fn parse_time(text: &str, format: &str) -> (time: Option<CivilTime>)
    ensures
        time == parsed_time(text@, format@),
        time matches Some(t) ==> t.exists_on_the_calendar(),
        forall|t: CivilTime| #[trigger]
            t.exists_on_the_calendar() && t.has_plain_year() && format@ == WITH_SECONDS@ ==> {
                &&& text@ == iso_seconds(t) ==> time == Some(t)
                &&& text@ == iso_minutes(t) ==> time is None
            },
        forall|t: CivilTime| #[trigger]
            t.exists_on_the_calendar() && t.has_plain_year() && format@ == WITHOUT_SECONDS@ ==> {
                &&& text@ == iso_seconds(t) ==> time is None
                &&& t.second == 0 && text@ == iso_minutes(t) ==> time == Some(t)
            },
        (format@ == WITH_SECONDS@ || format@ == WITHOUT_SECONDS@) && begins_with_letter(text@)
            ==> time is None,
        format@ == MONTH_NAME_AND_TIME@ && has_no_letter(text@) ==> time is None,
        format@ == MONTH_NAME_AND_TIME@ && !text@.contains(':') ==> time is None,
        forall|t: CivilTime, rest: Seq<char>| #[trigger]
            is_month_and_time(rest, t) && format@ == MONTH_NAME_AND_TIME@ && text@
                == signed_decimal(t.year as int) + " "@ + rest ==> time == Some(t),
        forall|year: int|
            format@ == MONTH_NAME_AND_TIME@ && 0 <= year <= 9999 && (#[trigger] signed_decimal(year)
                + " "@).is_prefix_of(text@) ==> (time matches Some(t) ==> t.year == year),
{
    let parsed = chrono::NaiveDateTime::parse_from_str(text, format).ok()?;
    Some(CivilTime {
        year: chrono::Datelike::year(&parsed),
        month: chrono::Datelike::month(&parsed),
        day: chrono::Datelike::day(&parsed),
        hour: chrono::Timelike::hour(&parsed),
        minute: chrono::Timelike::minute(&parsed),
        second: chrono::Timelike::second(&parsed),
    })
}

/// What `chrono::NaiveDate::parse_from_str` reads in a text by a format.
pub uninterp spec fn parsed_date(text: Seq<char>, format: Seq<char>) -> Option<CivilDate>;

/// Calls `chrono::NaiveDate::parse_from_str`. The outcome depends on the text and the
/// format alone, and is a date that the calendar has. The grammar is not written out but
/// for this: a text in the form that the format gives to a date is read as that date, and a
/// text without letters, or with a colon, is not read where the format wants the name of a
/// month, a day and a year.
#[verifier::external_body]
pub(crate) fn parse_date(text: &str, format: &str) -> (date: Option<CivilDate>)
    ensures
        date == parsed_date(text@, format@),
        date matches Some(d) ==> d.start().exists_on_the_calendar(),
        format@ == MONTH_NAME_AND_YEAR@ && has_no_letter(text@) ==> date is None,
        format@ == MONTH_NAME_AND_YEAR@ && text@.contains(':') ==> date is None,
        forall|t: CivilTime| #[trigger]
            is_month_and_year(text@, t) && format@ == MONTH_NAME_AND_YEAR@ ==> start_of(date)
                == Some(t),
{
    let parsed = chrono::NaiveDate::parse_from_str(text, format).ok()?;
    Some(CivilDate {
        year: chrono::Datelike::year(&parsed),
        month: chrono::Datelike::month(&parsed),
        day: chrono::Datelike::day(&parsed),
    })
}

/// Calls `chrono::TimeZone::from_local_datetime` for `chrono::Local`, with the time built by
/// `chrono::NaiveDate::from_ymd_opt` and `chrono::NaiveDate::and_hms_opt`, and then
/// `chrono::DateTime::timestamp`. Which instant it is rests on the machine's time zone: none
/// where the calendar has no such time, or the zone has it not at all or twice; otherwise
/// one less than a day away from the same time without an offset.
#[verifier::external_body]
pub(crate) fn local_instant(time: CivilTime) -> (instant: Option<i64>)
    ensures
        instant matches Some(t) ==> time.can_be(t),
{
    let date = chrono::NaiveDate::from_ymd_opt(time.year, time.month, time.day)?;
    let naive = date.and_hms_opt(time.hour, time.minute, time.second)?;
    let local = chrono::TimeZone::from_local_datetime(&chrono::Local, &naive);
    local.single().map(|t| t.timestamp())
}

/// Calls `chrono::Local::now` and `chrono::Datelike::year`. Nothing is claimed of the year.
#[verifier::external_body]
pub(crate) fn current_year() -> (year: i32) {
    chrono::Datelike::year(&chrono::Local::now())
}

/// Whether the machine's time zone, asked for the instant of a time, can answer with this one,
/// or with none.
pub closed spec fn zone_gives(time: CivilTime, instant: Option<i64>) -> bool {
    call_ensures(local_instant, (time,), instant)
}

/// Whether the machine's clock, asked for the current year, can answer with this one.
pub closed spec fn is_current_year(year: i32) -> bool {
    call_ensures(current_year, (), year)
}

/// Whether `instant` is what the time zone gives for a time that was read, or none for a time
/// that was not.
pub open spec fn is_instant_of(time: Option<CivilTime>, instant: Option<i64>) -> bool {
    match time {
        Some(t) => zone_gives(t, instant) && (instant matches Some(i) ==> t.can_be(i)),
        None => instant is None,
    }
}

/// The instant of a time, if one was read and the time zone has it once.
pub(crate) fn instant_of(time: Option<CivilTime>) -> (instant: Option<i64>)
    ensures
        is_instant_of(time, instant),
{
    match time {
        Some(t) => local_instant(t),
        None => None,
    }
}

/// An instant as it is handed to a panel: an instant before 1970 wraps around.
pub open spec fn stamp(instant: i64) -> u64 {
    instant as u64
}

/// The stamp of the first instant that is known, or zero.
pub open spec fn first_stamp(instants: Seq<Option<i64>>) -> u64
    decreases instants.len(),
{
    if instants.len() == 0 {
        0
    } else {
        match instants[0] {
            Some(instant) => stamp(instant),
            None => first_stamp(instants.drop_first()),
        }
    }
}

/// The stamp of an instant.
pub fn stamp_of(instant: i64) -> (seconds: u64)
    ensures
        seconds == stamp(instant),
{
    #[verifier::truncate]
    (instant as u64)
}

/// The stamp of the first instant that is known, or zero.
pub fn stamp_of_first(instants: &[Option<i64>]) -> (seconds: u64)
    ensures
        seconds == first_stamp(instants@),
{
    let mut i: usize = 0;
    assert(instants@.skip(0) =~= instants@);
    while i < instants.len()
        invariant
            i <= instants@.len(),
            first_stamp(instants@) == first_stamp(instants@.skip(i as int)),
        decreases instants@.len() - i,
    {
        assert(instants@.skip(i as int).drop_first() =~= instants@.skip(i + 1));
        match instants[i] {
            Some(instant) => {
                return stamp_of(instant);
            },
            None => {},
        }
        i += 1;
    }
    0
}

/// Whether `seconds` is the stamp that the readings of a date, tried in this order, lead
/// to: that of the first reading which the time zone has once, or zero where there is none.
pub open spec fn is_stamp_of(seconds: u64, readings: Seq<Option<CivilTime>>) -> bool {
    exists|instants: Seq<Option<i64>>|
        instants.len() == readings.len() && (forall|k: int|
            0 <= k < readings.len() ==> is_instant_of(readings[k], #[trigger] instants[k]))
            && seconds == #[trigger] first_stamp(instants)
}

/// The stamp of an instant, or zero where there is none.
pub open spec fn stamp_or_zero(instant: Option<i64>) -> u64 {
    match instant {
        Some(i) => stamp(i),
        None => 0,
    }
}

/// Whether `seconds` is the stamp of the instant that the time zone gives for a time, or zero
/// where it gives none.
pub open spec fn is_zone_stamp(seconds: u64, time: CivilTime) -> bool {
    exists|instant: Option<i64>| #[trigger]
        zone_gives(time, instant) && seconds == stamp_or_zero(instant)
}

/// The readings of a date with all numbers, with and without seconds.
pub open spec fn numeric_readings(text: Seq<char>) -> Seq<Option<CivilTime>> {
    seq![parsed_time(text, WITH_SECONDS@), parsed_time(text, WITHOUT_SECONDS@)]
}

/// Whether `seconds` is the stamp of a date with all numbers: that of its first reading which
/// the time zone has once, or zero. A date in the ISO form is read as it is written.
pub open spec fn is_numeric_stamp(seconds: u64, text: Seq<char>) -> bool {
    &&& is_stamp_of(seconds, numeric_readings(text))
    &&& forall|time: CivilTime| #[trigger] is_iso(text, time) ==> is_zone_stamp(seconds, time)
}

/// The stamp of a date such as `2024-01-15 10:30:00` or `2024-01-15 10:30`, or zero.
pub fn numeric_date_stamp(text: &str) -> (seconds: u64)
    ensures
        is_numeric_stamp(seconds, text@),
{
    let with = parse_time(text, WITH_SECONDS);
    let without = parse_time(text, WITHOUT_SECONDS);
    let instants = [instant_of(with), instant_of(without)];
    let seconds = stamp_of_first(&instants);
    proof {
        let readings = numeric_readings(text@);
        assert(is_instant_of(readings[0], instants@[0]));
        assert(is_instant_of(readings[1], instants@[1]));
        assert(is_stamp_of(seconds, readings));
        assert forall|time: CivilTime| #[trigger] is_iso(text@, time) implies is_zone_stamp(
            seconds,
            time,
        ) by {
            assert(time.exists_on_the_calendar());
            if text@ == iso_seconds(time) {
                lemma_only_reading(seconds, readings, instants@, 0, time);
            } else {
                lemma_only_reading(seconds, readings, instants@, 1, time);
            }
        }
    }
    seconds
}

/// Where a date has one reading, the stamp is that of what the time zone gives for it.
proof fn lemma_only_reading(
    seconds: u64,
    readings: Seq<Option<CivilTime>>,
    instants: Seq<Option<i64>>,
    at: int,
    time: CivilTime,
)
    requires
        instants.len() == readings.len(),
        forall|k: int| 0 <= k < readings.len() ==> is_instant_of(readings[k], #[trigger] instants[k]),
        0 <= at < readings.len(),
        readings[at] == Some(time),
        forall|k: int| 0 <= k < readings.len() && k != at ==> (#[trigger] readings[k]) is None,
        seconds == first_stamp(instants),
    ensures
        is_zone_stamp(seconds, time),
    decreases instants.len(),
{
    assert(is_instant_of(readings[0], instants[0]));
    let rest = instants.drop_first();
    let others = readings.drop_first();
    assert forall|k: int| 0 <= k < others.len() implies is_instant_of(
        others[k],
        #[trigger] rest[k],
    ) by {
        assert(rest[k] == instants[k + 1]);
    }
    assert forall|k: int| 0 <= k < others.len() && k != at - 1 implies (
    #[trigger] others[k]) is None by {
        assert(others[k] == readings[k + 1]);
    }
    if at > 0 {
        assert(readings[0] is None);
        assert(others[at - 1] == Some(time));
        lemma_only_reading(seconds, others, rest, at - 1, time);
    } else {
        assert(zone_gives(time, instants[0]));
        if instants[0] is None {
            lemma_none_known(rest, others);
        }
    }
}

/// The reading of a date as the first moment of its day.
pub open spec fn start_of(date: Option<CivilDate>) -> Option<CivilTime> {
    match date {
        Some(d) => Some(d.start()),
        None => None,
    }
}

/// The readings of a date as a listing of files writes it: with all numbers, with the name
/// of the month and a time of day in `year`, and with the name of the month and a year.
pub open spec fn listing_readings(text: Seq<char>, year: int) -> Seq<Option<CivilTime>> {
    seq![
        parsed_time(text, WITH_SECONDS@),
        parsed_time(text, WITHOUT_SECONDS@),
        parsed_time(signed_decimal(year) + " "@ + text, MONTH_NAME_AND_TIME@),
        start_of(parsed_date(text, MONTH_NAME_AND_YEAR@)),
    ]
}

/// Whether `text` is `time`, as a listing of files made in `year` writes it.
pub open spec fn is_listed_as(text: Seq<char>, year: int, time: CivilTime) -> bool {
    ||| is_iso(text, time)
    ||| is_month_and_time(text, time) && time.year == year
    ||| is_month_and_year(text, time)
}

/// Whether `seconds` is the stamp of a date as a listing of files made in `year` writes it: that
/// of its first reading which the time zone has once, or zero. A date in one of the forms of
/// such a listing is read as it is written.
pub open spec fn is_listing_stamp(seconds: u64, text: Seq<char>, year: int) -> bool {
    &&& is_stamp_of(seconds, listing_readings(text, year))
    &&& forall|time: CivilTime| #[trigger]
        is_listed_as(text, year, time) ==> is_zone_stamp(seconds, time)
}

/// The stamp of a date as a listing of files writes it, or zero. A date without a year is
/// taken to lie in `year`.
pub fn listing_date_stamp_in(text: &str, year: i32) -> (seconds: u64)
    ensures
        is_listing_stamp(seconds, text@, year as int),
        0 <= year <= 9999 ==> (listing_readings(text@, year as int)[2] matches Some(time)
            ==> time.year == year),
{
    let with = parse_time(text, WITH_SECONDS);
    let without = parse_time(text, WITHOUT_SECONDS);
    let year_text = signed_decimal_text(year);
    let assumed = joined3(year_text.as_str(), " ", text);
    assert(assumed@.subrange(0, (year_text@ + " "@).len() as int) =~= year_text@ + " "@);
    let this_year = parse_time(assumed.as_str(), MONTH_NAME_AND_TIME);
    let day = match parse_date(text, MONTH_NAME_AND_YEAR) {
        Some(date) => Some(date.midnight()),
        None => None,
    };
    let instants = [instant_of(with), instant_of(without), instant_of(this_year), instant_of(day)];
    let seconds = stamp_of_first(&instants);
    proof {
        let readings = listing_readings(text@, year as int);
        assert(is_instant_of(readings[0], instants@[0]));
        assert(is_instant_of(readings[1], instants@[1]));
        assert(is_instant_of(readings[2], instants@[2]));
        assert(is_instant_of(readings[3], instants@[3]));
        assert(is_stamp_of(seconds, readings));
        assert forall|time: CivilTime| #[trigger]
            is_listed_as(text@, year as int, time) implies is_zone_stamp(seconds, time) by {
            assert(time.exists_on_the_calendar());
            if is_iso(text@, time) {
                lemma_iso_has_no_letter(text@, time);
                lemma_year_has_no_letter(year as int, text@);
                if text@ == iso_seconds(time) {
                    lemma_only_reading(seconds, readings, instants@, 0, time);
                } else {
                    lemma_only_reading(seconds, readings, instants@, 1, time);
                }
            } else if is_month_and_time(text@, time) && time.year == year {
                lemma_month_and_time(text@, time);
                lemma_only_reading(seconds, readings, instants@, 2, time);
            } else {
                lemma_month_and_year(text@, time, year as int);
                lemma_only_reading(seconds, readings, instants@, 3, time);
            }
        }
    }
    seconds
}

/// The stamp of a date as a listing of files writes it, or zero. A date without a year is
/// taken to lie in the current one.
pub fn listing_date_stamp(text: &str) -> (seconds: u64)
    ensures
        exists|year: i32| #[trigger]
            is_current_year(year) && is_listing_stamp(seconds, text@, year as int),
{
    let year: i32 = current_year();
    assert(is_current_year(year));
    listing_date_stamp_in(text, year)
}

/// How a server writes dates.
#[derive(Clone, Copy, Debug, PartialEq, Eq, Structural)]
pub enum DateStyle {
    /// With all numbers.
    Numeric,
    /// As a listing of files does, which may name the month and leave out the year.
    Listing,
}

/// Whether `seconds` is the stamp of a date in a style; a year that is left out is the current
/// one.
pub open spec fn is_date_stamp(style: DateStyle, seconds: u64, text: Seq<char>) -> bool {
    match style {
        DateStyle::Numeric => is_numeric_stamp(seconds, text),
        DateStyle::Listing => exists|year: i32| #[trigger]
            is_current_year(year) && is_listing_stamp(seconds, text, year as int),
    }
}

/// The stamp of a date in a style, or zero.
pub fn date_stamp(style: DateStyle, text: &str) -> (seconds: u64)
    ensures
        is_date_stamp(style, seconds, text@),
{
    match style {
        DateStyle::Numeric => numeric_date_stamp(text),
        DateStyle::Listing => listing_date_stamp(text),
    }
}

proof fn lemma_two_digits_have_no_letter(n: int)
    requires
        0 <= n < 100,
    ensures
        has_no_letter(two_digits(n)),
{
}

proof fn lemma_no_letter_in_both(a: Seq<char>, b: Seq<char>)
    requires
        has_no_letter(a),
        has_no_letter(b),
    ensures
        has_no_letter(a + b),
{
    assert forall|i: int| 0 <= i < (a + b).len() implies !('a' <= (#[trigger] (a + b)[i]) <= 'z')
        && !('A' <= (a + b)[i] <= 'Z') by {
        if i < a.len() {
            assert((a + b)[i] == a[i]);
        } else {
            assert((a + b)[i] == b[i - a.len()]);
        }
    }
}

proof fn lemma_iso_has_no_letter(text: Seq<char>, time: CivilTime)
    requires
        is_iso(text, time),
    ensures
        has_no_letter(text),
{
    let year = time.year as int;
    let a = two_digits(year / 100) + two_digits(year % 100);
    let b = a + seq!['-'] + two_digits(time.month as int);
    let c = b + seq!['-'] + two_digits(time.day as int);
    let d = c + seq![' '] + two_digits(time.hour as int);
    assert(iso_minutes(time) == d + seq![':'] + two_digits(time.minute as int));
    lemma_two_digits_have_no_letter(year / 100);
    lemma_two_digits_have_no_letter(year % 100);
    lemma_two_digits_have_no_letter(time.month as int);
    lemma_two_digits_have_no_letter(time.day as int);
    lemma_two_digits_have_no_letter(time.hour as int);
    lemma_two_digits_have_no_letter(time.minute as int);
    lemma_two_digits_have_no_letter(time.second as int);
    lemma_no_letter_in_both(two_digits(year / 100), two_digits(year % 100));
    lemma_no_letter_in_both(a, seq!['-']);
    lemma_no_letter_in_both(a + seq!['-'], two_digits(time.month as int));
    lemma_no_letter_in_both(b, seq!['-']);
    lemma_no_letter_in_both(b + seq!['-'], two_digits(time.day as int));
    lemma_no_letter_in_both(c, seq![' ']);
    lemma_no_letter_in_both(c + seq![' '], two_digits(time.hour as int));
    lemma_no_letter_in_both(d, seq![':']);
    lemma_no_letter_in_both(d + seq![':'], two_digits(time.minute as int));
    lemma_no_letter_in_both(iso_minutes(time), seq![':']);
    lemma_no_letter_in_both(iso_minutes(time) + seq![':'], two_digits(time.second as int));
}

proof fn lemma_decimal_has_no_letter(n: nat)
    ensures
        has_no_letter(decimal(n)),
    decreases n,
{
    if n >= 10 {
        lemma_decimal_has_no_letter(n / 10);
        lemma_no_letter_in_both(decimal(n / 10), seq![digit(n % 10)]);
        assert(decimal(n) =~= decimal(n / 10) + seq![digit(n % 10)]);
    }
}

proof fn lemma_year_has_no_letter(year: int, text: Seq<char>)
    requires
        has_no_letter(text),
    ensures
        has_no_letter(signed_decimal(year) + " "@ + text),
{
    reveal_strlit(" ");
    if year < 0 {
        lemma_decimal_has_no_letter((-year) as nat);
        lemma_no_letter_in_both(seq!['-'], decimal((-year) as nat));
    } else {
        lemma_decimal_has_no_letter(year as nat);
    }
    lemma_no_letter_in_both(signed_decimal(year), " "@);
    lemma_no_letter_in_both(signed_decimal(year) + " "@, text);
}

proof fn lemma_not_in_both(a: Seq<char>, b: Seq<char>, c: char)
    requires
        !a.contains(c),
        !b.contains(c),
    ensures
        !(a + b).contains(c),
{
    if (a + b).contains(c) {
        let i = choose|i: int| 0 <= i < (a + b).len() && (a + b)[i] == c;
        if i < a.len() {
            assert(a[i] == c);
        } else {
            assert(b[i - a.len()] == c);
        }
    }
}

proof fn lemma_decimal_has_no_colon(n: nat)
    ensures
        !decimal(n).contains(':'),
    decreases n,
{
    if n >= 10 {
        lemma_decimal_has_no_colon(n / 10);
        lemma_not_in_both(decimal(n / 10), seq![digit(n % 10)], ':');
        assert(decimal(n) =~= decimal(n / 10) + seq![digit(n % 10)]);
    }
}

proof fn lemma_month_and_day(time: CivilTime, wide: bool)
    requires
        time.exists_on_the_calendar(),
    ensures
        begins_with_letter(month_and_day(time, wide)),
        !month_and_day(time, wide).contains(':'),
{
    let name = month_name(time.month as int);
    let blank = if wide && time.day < 10 {
        seq![' ', ' ']
    } else {
        seq![' ']
    };
    lemma_decimal_has_no_colon(time.day as nat);
    lemma_not_in_both(name, blank, ':');
    lemma_not_in_both(name + blank, decimal(time.day as nat), ':');
    assert(month_and_day(time, wide)[0] == name[0]);
}

/// A time without a year begins with a letter and holds a colon.
proof fn lemma_month_and_time(text: Seq<char>, time: CivilTime)
    requires
        is_month_and_time(text, time),
    ensures
        begins_with_letter(text),
        text.contains(':'),
{
    let wide = text == month_and_time(time, true);
    lemma_month_and_day(time, wide);
    let before = month_and_day(time, wide) + seq![' '] + two_digits(time.hour as int);
    assert(text[0] == month_and_day(time, wide)[0]);
    assert(text[before.len() as int] == ':');
}

/// A date with its year begins with a letter and holds no colon, nor does it with a year in
/// front.
proof fn lemma_month_and_year(text: Seq<char>, time: CivilTime, year: int)
    requires
        is_month_and_year(text, time),
    ensures
        begins_with_letter(text),
        !(signed_decimal(year) + " "@ + text).contains(':'),
{
    reveal_strlit(" ");
    let wide = text == month_and_year(time, true);
    lemma_month_and_day(time, wide);
    let a = month_and_day(time, wide) + seq![' '];
    let first = two_digits(time.year as int / 100);
    let second = two_digits(time.year as int % 100);
    assert(text[0] == month_and_day(time, wide)[0]);
    lemma_not_in_both(month_and_day(time, wide), seq![' '], ':');
    lemma_not_in_both(a, first, ':');
    lemma_not_in_both(a + first, second, ':');
    if year < 0 {
        lemma_decimal_has_no_colon((-year) as nat);
        lemma_not_in_both(seq!['-'], decimal((-year) as nat), ':');
    } else {
        lemma_decimal_has_no_colon(year as nat);
    }
    lemma_not_in_both(signed_decimal(year), " "@, ':');
    lemma_not_in_both(signed_decimal(year) + " "@, text, ':');
}

/// A date that no reading fits has the stamp zero.
pub proof fn a_date_that_cannot_be_read_is_zero(seconds: u64, readings: Seq<Option<CivilTime>>)
    requires
        is_stamp_of(seconds, readings),
        forall|k: int| 0 <= k < readings.len() ==> (#[trigger] readings[k]) is None,
    ensures
        seconds == 0,
{
    let instants = choose|instants: Seq<Option<i64>>|
        instants.len() == readings.len() && (forall|k: int|
            0 <= k < readings.len() ==> is_instant_of(readings[k], #[trigger] instants[k]))
            && seconds == #[trigger] first_stamp(instants);
    lemma_none_known(instants, readings);
}

proof fn lemma_none_known(instants: Seq<Option<i64>>, readings: Seq<Option<CivilTime>>)
    requires
        instants.len() == readings.len(),
        forall|k: int| 0 <= k < readings.len() ==> is_instant_of(readings[k], #[trigger] instants[k]),
        forall|k: int| 0 <= k < readings.len() ==> (#[trigger] readings[k]) is None,
    ensures
        first_stamp(instants) == 0,
    decreases instants.len(),
{
    if instants.len() > 0 {
        assert(readings[0] is None);
        assert(is_instant_of(readings[0], instants[0]));
        let rest = instants.drop_first();
        let others = readings.drop_first();
        assert forall|k: int| 0 <= k < others.len() implies is_instant_of(
            others[k],
            #[trigger] rest[k],
        ) by {
            assert(rest[k] == instants[k + 1]);
        }
        assert forall|k: int| 0 <= k < others.len() implies (#[trigger] others[k]) is None by {
            assert(others[k] == readings[k + 1]);
        }
        lemma_none_known(rest, others);
    }
}

/// Of two times that are two days or more apart, the later one is the later instant,
/// whatever the time zone.
pub proof fn a_later_date_is_a_later_instant(
    earlier: CivilTime,
    later: CivilTime,
    first: i64,
    second: i64,
)
    requires
        earlier.can_be(first),
        later.can_be(second),
        later.unix_seconds() - earlier.unix_seconds() >= 2 * 86400,
    ensures
        first < second,
        0 <= first ==> stamp(first) < stamp(second),
{
}

impl CivilTime {
    /// Whether this time comes before another one on the calendar.
    pub open spec fn is_before(self, other: CivilTime) -> bool {
        ||| self.year < other.year
        ||| self.year == other.year && self.month < other.month
        ||| self.year == other.year && self.month == other.month && self.day < other.day
        ||| self.year == other.year && self.month == other.month && self.day == other.day && (
        self.hour * 3600 + self.minute * 60 + self.second < other.hour * 3600 + other.minute * 60
            + other.second)
    }
}

proof fn lemma_months(year: int, month: int)
    requires
        1 <= month <= 12,
    ensures
        0 <= days_before_month(year, month),
        days_before_month(year, month) + days_in_month(year, month) <= if is_leap(year) {
            366int
        } else {
            365int
        },
{
    reveal_with_fuel(days_before_month, 13);
}

proof fn lemma_later_month(year: int, first: int, second: int)
    requires
        1 <= first < second,
    ensures
        days_before_month(year, first) + days_in_month(year, first) <= days_before_month(
            year,
            second,
        ),
    decreases second - first,
{
    if first + 1 < second {
        lemma_later_month(year, first, second - 1);
    }
}

proof fn lemma_next_multiple(n: int, d: int)
    requires
        d == 4 || d == 100 || d == 400,
    ensures
        (n + 1 + (d - 1)) / d - (n + (d - 1)) / d == if n % d == 0 {
            1int
        } else {
            0int
        },
{
    if d == 4 {
        assert((n + 4) / 4 - (n + 3) / 4 == if n % 4 == 0 {
            1int
        } else {
            0int
        });
    } else if d == 100 {
        assert((n + 100) / 100 - (n + 99) / 100 == if n % 100 == 0 {
            1int
        } else {
            0int
        });
    } else {
        assert((n + 400) / 400 - (n + 399) / 400 == if n % 400 == 0 {
            1int
        } else {
            0int
        });
    }
}

proof fn lemma_centuries(year: int)
    ensures
        year % 400 == 0 ==> year % 100 == 0,
        year % 100 == 0 ==> year % 4 == 0,
{
    assert(year % 400 == 0 ==> year % 100 == 0) by {
        assert(year == 400 * (year / 400) + year % 400);
    }
    assert(year % 100 == 0 ==> year % 4 == 0) by {
        assert(year == 100 * (year / 100) + year % 100);
    }
}

proof fn lemma_next_year(year: int)
    ensures
        days_before_year(year + 1) - days_before_year(year) == if is_leap(year) {
            366int
        } else {
            365int
        },
{
    lemma_next_multiple(year, 4);
    lemma_next_multiple(year, 100);
    lemma_next_multiple(year, 400);
    lemma_centuries(year);
}

proof fn lemma_later_year(first: int, second: int)
    requires
        first < second,
    ensures
        days_before_year(first + 1) <= days_before_year(second),
    decreases second - first,
{
    if first + 1 < second {
        lemma_later_year(first, second - 1);
        lemma_next_year(second - 1);
    }
}

/// A time that comes later on the calendar is counted with more seconds.
pub proof fn the_calendar_runs_forward(a: CivilTime, b: CivilTime)
    requires
        a.exists_on_the_calendar(),
        b.exists_on_the_calendar(),
        a.is_before(b),
    ensures
        a.unix_seconds() < b.unix_seconds(),
{
    let days_a = days_before_month(a.year as int, a.month as int) + a.day - 1;
    let days_b = days_before_month(b.year as int, b.month as int) + b.day - 1;
    lemma_months(a.year as int, a.month as int);
    lemma_months(b.year as int, b.month as int);
    lemma_next_year(a.year as int);
    if a.year < b.year {
        lemma_later_year(a.year as int, b.year as int);
        assert(days_before_year(a.year as int) + days_a < days_before_year(b.year as int) + days_b);
    } else if a.month < b.month {
        lemma_later_month(a.year as int, a.month as int, b.month as int);
        assert(days_a < days_b);
    }
}

/// Dates of one year are less than a year apart.
pub proof fn dates_of_one_year_are_near(a: CivilTime, b: CivilTime)
    requires
        a.exists_on_the_calendar(),
        b.exists_on_the_calendar(),
        a.year == b.year,
    ensures
        b.unix_seconds() - a.unix_seconds() < 366 * 86400,
{
    lemma_months(a.year as int, a.month as int);
    lemma_months(b.year as int, b.month as int);
}

/// Whether the time zone has one answer for a time: an instant, or none.
pub open spec fn is_settled(time: CivilTime, answer: Option<i64>) -> bool {
    forall|instant: Option<i64>| #[trigger] zone_gives(time, instant) ==> instant == answer
}

/// What the time zone gives for a time is less than a day away from it.
pub proof fn the_zone_is_less_than_a_day_off(time: CivilTime, instant: i64)
    requires
        zone_gives(time, Some(instant)),
    ensures
        time.can_be(instant),
{
}

/// A date written from an instant, as the clock of the time zone shows it then and at no other
/// instant, is read as that instant.
pub proof fn a_written_instant_is_read_back(
    style: DateStyle,
    text: Seq<char>,
    time: CivilTime,
    instant: i64,
    seconds: u64,
)
    requires
        is_date_stamp(style, seconds, text),
        is_iso(text, time),
        is_settled(time, Some(instant)),
        instant >= 0,
    ensures
        seconds == instant,
{
    lemma_iso_date(style, text, time, seconds);
}

proof fn lemma_iso_date(style: DateStyle, text: Seq<char>, time: CivilTime, seconds: u64)
    requires
        is_date_stamp(style, seconds, text),
        is_iso(text, time),
    ensures
        is_zone_stamp(seconds, time),
{
    if style is Listing {
        let year = choose|year: i32| #[trigger]
            is_current_year(year) && is_listing_stamp(seconds, text, year as int);
        assert(is_listed_as(text, year as int, time));
    }
}

/// A whole minute is read alike with and without its seconds.
pub proof fn a_whole_minute_needs_no_seconds(
    style: DateStyle,
    time: CivilTime,
    answer: Option<i64>,
    with: u64,
    without: u64,
)
    requires
        time.exists_on_the_calendar(),
        time.has_plain_year(),
        time.second == 0,
        is_settled(time, answer),
        is_date_stamp(style, with, iso_seconds(time)),
        is_date_stamp(style, without, iso_minutes(time)),
    ensures
        with == without,
{
    lemma_iso_date(style, iso_seconds(time), time, with);
    lemma_iso_date(style, iso_minutes(time), time, without);
}

/// A date that a listing writes with its year is read as the first moment of its day, whatever
/// the current year.
pub proof fn a_written_year_wins(text: Seq<char>, time: CivilTime, instant: i64, seconds: u64)
    requires
        is_date_stamp(DateStyle::Listing, seconds, text),
        is_month_and_year(text, time),
        is_settled(time, Some(instant)),
        instant >= 0,
    ensures
        seconds == instant,
        time.can_be(instant),
{
    let year = choose|year: i32| #[trigger]
        is_current_year(year) && is_listing_stamp(seconds, text, year as int);
    assert(is_listed_as(text, year as int, time));
}

/// A date that a listing writes without a year is read as that moment of the current year.
pub proof fn a_date_without_a_year_lies_in_the_current_one(
    text: Seq<char>,
    time: CivilTime,
    year: i32,
    instant: i64,
    seconds: u64,
)
    requires
        forall|y: i32| #[trigger] is_current_year(y) ==> y == year,
        year > 1970,
        is_date_stamp(DateStyle::Listing, seconds, text),
        is_month_and_time(text, time),
        time.year == year,
        is_settled(time, Some(instant)),
    ensures
        seconds == instant,
        seconds > 0,
        time.can_be(instant),
{
    let y = choose|y: i32| #[trigger]
        is_current_year(y) && is_listing_stamp(seconds, text, y as int);
    assert(is_listed_as(text, y as int, time));
    let start = CivilTime { year: 1970, month: 12, day: 31, hour: 0, minute: 0, second: 0 };
    assert(days_in_month(1970, 12) == 31);
    the_calendar_runs_forward(start, time);
    reveal_with_fuel(days_before_month, 13);
    assert(start.unix_seconds() >= 86400);
}

/// Dates that a listing writes without a year all land in one year: as far apart as they are on
/// the calendar, but for less than two days where the time zone is not as far off for both, and
/// so in their order where they are two days apart, and never much more than a year apart.
pub proof fn implied_year_dates_all_land_in_one_year(
    year: i32,
    first_text: Seq<char>,
    first: CivilTime,
    first_instant: i64,
    first_seconds: u64,
    second_text: Seq<char>,
    second: CivilTime,
    second_instant: i64,
    second_seconds: u64,
)
    requires
        forall|y: i32| #[trigger] is_current_year(y) ==> y == year,
        year > 1970,
        is_date_stamp(DateStyle::Listing, first_seconds, first_text),
        is_month_and_time(first_text, first),
        first.year == year,
        is_settled(first, Some(first_instant)),
        is_date_stamp(DateStyle::Listing, second_seconds, second_text),
        is_month_and_time(second_text, second),
        second.year == year,
        is_settled(second, Some(second_instant)),
    ensures
        0 < first_seconds,
        0 < second_seconds,
        -2 * 86400 < (second_seconds - first_seconds) - (second.unix_seconds()
            - first.unix_seconds()) < 2 * 86400,
        second.unix_seconds() - first.unix_seconds() >= 2 * 86400 ==> first_seconds
            < second_seconds,
        second_seconds - first_seconds == second_instant - first_instant,
        second_seconds - first_seconds < 368 * 86400,
        first_instant - first.unix_seconds() == second_instant - second.unix_seconds() ==> {
            &&& second_seconds - first_seconds == second.unix_seconds() - first.unix_seconds()
            &&& second_seconds - first_seconds < 366 * 86400
        },
{
    a_date_without_a_year_lies_in_the_current_one(
        first_text,
        first,
        year,
        first_instant,
        first_seconds,
    );
    a_date_without_a_year_lies_in_the_current_one(
        second_text,
        second,
        year,
        second_instant,
        second_seconds,
    );
    dates_of_one_year_are_near(first, second);
}

} // verus!
