use rawsort::error::MetadataError;
use rawsort::timestamp::{DateTimeFields, Timestamp, MAX_YEAR, MIN_YEAR, OUTPUT_DATE_FMT};

fn fields(year: i32, month: u32, day: u32, hour: u32, minute: u32, second: u32) -> DateTimeFields {
    DateTimeFields { year, month, day, hour, minute, second, nanosecond: 0 }
}

const INPUT: &str = "%Y-%m-%d %H:%M:%S";

#[test]
fn a_moment_is_written_to_the_second() {
    let moment = Timestamp::new(fields(2020, 1, 1, 10, 0, 0)).unwrap();
    assert_eq!(moment.format(), "2020-01-01T10:00:00");
    let moment = Timestamp::new(fields(1999, 12, 31, 23, 59, 59)).unwrap();
    assert_eq!(moment.format(), "1999-12-31T23:59:59");
}

#[test]
fn parts_are_zero_padded() {
    let moment = Timestamp::new(fields(7, 3, 4, 5, 6, 7)).unwrap();
    assert_eq!(moment.format(), "0007-03-04T05:06:07");
    let moment = Timestamp::new(fields(0, 1, 1, 0, 0, 0)).unwrap();
    assert_eq!(moment.format(), "0000-01-01T00:00:00");
    let moment = Timestamp::new(fields(999, 10, 10, 10, 10, 10)).unwrap();
    assert_eq!(moment.format(), "0999-10-10T10:10:10");
    let moment = Timestamp::new(fields(9999, 12, 31, 0, 0, 0)).unwrap();
    assert_eq!(moment.format(), "9999-12-31T00:00:00");
}

#[test]
fn years_outside_four_digits_carry_a_sign() {
    let moment = Timestamp::new(fields(10000, 1, 1, 0, 0, 0)).unwrap();
    assert_eq!(moment.format(), "+10000-01-01T00:00:00");
    let moment = Timestamp::new(fields(-1, 1, 1, 0, 0, 0)).unwrap();
    assert_eq!(moment.format(), "-0001-01-01T00:00:00");
    let moment = Timestamp::new(fields(-12345, 6, 7, 8, 9, 10)).unwrap();
    assert_eq!(moment.format(), "-12345-06-07T08:09:10");
    let moment = Timestamp::new(fields(MAX_YEAR, 12, 31, 23, 59, 59)).unwrap();
    assert_eq!(moment.format(), "+262142-12-31T23:59:59");
    let moment = Timestamp::new(fields(MIN_YEAR, 1, 1, 0, 0, 0)).unwrap();
    assert_eq!(moment.format(), "-262143-01-01T00:00:00");
}

#[test]
fn a_leap_second_is_written_as_sixty() {
    let leap = DateTimeFields { nanosecond: 1_000_000_000, ..fields(2016, 12, 31, 23, 59, 59) };
    let moment = Timestamp::new(leap).unwrap();
    assert_eq!(moment.format(), "2016-12-31T23:59:60");
    let late = DateTimeFields { nanosecond: 999_999_999, ..fields(2016, 12, 31, 23, 59, 59) };
    assert_eq!(Timestamp::new(late).unwrap().format(), "2016-12-31T23:59:59");
}

#[test]
fn fractions_of_a_second_are_not_written() {
    let a = DateTimeFields { nanosecond: 1, ..fields(2020, 1, 1, 10, 0, 0) };
    let b = DateTimeFields { nanosecond: 500_000_000, ..fields(2020, 1, 1, 10, 0, 0) };
    assert_eq!(Timestamp::new(a).unwrap().format(), Timestamp::new(b).unwrap().format());
}

#[test]
fn valid_fields_make_a_moment() {
    assert!(fields(2020, 2, 29, 0, 0, 0).check());
    assert!(fields(2000, 2, 29, 0, 0, 0).check());
    assert!(fields(-4, 2, 29, 0, 0, 0).check());
    assert!(fields(0, 2, 29, 0, 0, 0).check());
    assert!(fields(2021, 4, 30, 23, 59, 59).check());
    assert!(fields(2021, 12, 31, 0, 0, 0).check());
    assert!(fields(MAX_YEAR, 12, 31, 23, 59, 59).check());
    assert!(fields(MIN_YEAR, 1, 1, 0, 0, 0).check());
    let made = Timestamp::new(fields(2020, 2, 29, 1, 2, 3)).unwrap();
    assert_eq!(made.fields(), fields(2020, 2, 29, 1, 2, 3));
}

#[test]
fn invalid_fields_make_none() {
    assert!(!fields(2021, 2, 29, 0, 0, 0).check());
    assert!(!fields(1900, 2, 29, 0, 0, 0).check());
    assert!(!fields(2100, 2, 29, 0, 0, 0).check());
    assert!(!fields(-1, 2, 29, 0, 0, 0).check());
    assert!(!fields(2021, 4, 31, 0, 0, 0).check());
    assert!(!fields(2021, 0, 1, 0, 0, 0).check());
    assert!(!fields(2021, 13, 1, 0, 0, 0).check());
    assert!(!fields(2021, 1, 0, 0, 0, 0).check());
    assert!(!fields(2021, 1, 32, 0, 0, 0).check());
    assert!(!fields(2021, 1, 1, 24, 0, 0).check());
    assert!(!fields(2021, 1, 1, 0, 60, 0).check());
    assert!(!fields(2021, 1, 1, 0, 0, 60).check());
    assert!(!fields(MAX_YEAR + 1, 1, 1, 0, 0, 0).check());
    assert!(!fields(MIN_YEAR - 1, 12, 31, 0, 0, 0).check());
    assert!(!fields(i32::MAX, 1, 1, 0, 0, 0).check());
    assert!(!fields(i32::MIN, 1, 1, 0, 0, 0).check());
    assert!(!DateTimeFields { nanosecond: 2_000_000_000, ..fields(2021, 1, 1, 0, 0, 59) }.check());
    assert!(!DateTimeFields { nanosecond: 1_000_000_000, ..fields(2021, 1, 1, 0, 0, 58) }.check());
    assert!(Timestamp::new(fields(2021, 2, 30, 0, 0, 0)).is_none());
}

#[test]
fn validity_agrees_with_the_calendar_of_chrono() {
    for year in [-262144, -262143, -401, -400, -100, -4, -1, 0, 1, 4, 100, 400, 1900, 2000, 2023, 2024, 262142, 262143] {
        for month in 0..=13u32 {
            for day in 0..=32u32 {
                let ours = fields(year, month, day, 12, 0, 0).check();
                let theirs = chrono::NaiveDate::from_ymd_opt(year, month, day).is_some();
                assert_eq!(ours, theirs);
            }
        }
    }
}

#[test]
fn a_text_in_the_format_is_read() {
    let moment = Timestamp::parse("2020-01-01 10:00:00", INPUT).unwrap();
    assert_eq!(moment.fields(), fields(2020, 1, 1, 10, 0, 0));
    let moment = Timestamp::parse("2015-09-05 23:56:04", INPUT).unwrap();
    assert_eq!(moment.fields(), fields(2015, 9, 5, 23, 56, 4));
    assert_eq!(moment.format(), "2015-09-05T23:56:04");
}

#[test]
fn a_leap_second_is_read() {
    let moment = Timestamp::parse("2016-12-31 23:59:60", INPUT).unwrap();
    assert_eq!(
        moment.fields(),
        DateTimeFields { nanosecond: 1_000_000_000, ..fields(2016, 12, 31, 23, 59, 59) }
    );
    assert_eq!(moment.format(), "2016-12-31T23:59:60");
}

#[test]
fn a_signed_year_is_read() {
    let moment = Timestamp::parse("+10000-09-09 01:46:39", INPUT).unwrap();
    assert_eq!(moment.fields(), fields(10000, 9, 9, 1, 46, 39));
    assert_eq!(moment.format(), "+10000-09-09T01:46:39");
}

#[test]
fn other_texts_are_invalid_dates() {
    for text in ["", "-", "2020-01-01", "2020-13-01 10:00:00", "2021-02-29 10:00:00",
        "2020-01-01 24:00:00", "2020:01:01 10:00:00", "10000-09-09 01:46:39",
        "2020-01-01 10:00:00 trailing", "not a date"] {
        assert_eq!(Timestamp::parse(text, INPUT).err(), Some(MetadataError::InvalidDate));
    }
}

#[test]
fn a_text_is_read_under_the_given_format() {
    assert!(Timestamp::parse("2020-01-01T10:00:00", INPUT).is_err());
    let moment = Timestamp::parse("2020-01-01T10:00:00", OUTPUT_DATE_FMT).unwrap();
    assert_eq!(moment.fields(), fields(2020, 1, 1, 10, 0, 0));
    assert!(Timestamp::parse("2020-01-01 10:00:00", "%Q").is_err());
}

#[test]
fn a_reading_that_failed_is_an_invalid_date() {
    let failed = chrono::NaiveDateTime::parse_from_str("junk", INPUT).map(|_| fields(1, 1, 1, 0, 0, 0));
    assert_eq!(Timestamp::from_parsed(failed).err(), Some(MetadataError::InvalidDate));
    let made = Timestamp::from_parsed(Ok(fields(2020, 1, 1, 10, 0, 0))).unwrap();
    assert_eq!(made.fields(), fields(2020, 1, 1, 10, 0, 0));
    let refused = Timestamp::from_parsed(Ok(fields(2020, 2, 30, 10, 0, 0)));
    assert_eq!(refused.err(), Some(MetadataError::InvalidDate));
}

#[test]
fn writing_and_reading_give_the_moment_back() {
    for f in [fields(2020, 1, 1, 10, 0, 0), fields(1, 2, 3, 4, 5, 6), fields(9999, 12, 31, 23, 59, 59),
        fields(-500, 7, 8, 9, 10, 11), fields(20000, 2, 29, 0, 0, 0)] {
        let written = Timestamp::new(f).unwrap().format();
        let read = Timestamp::parse(&written, OUTPUT_DATE_FMT).unwrap();
        assert_eq!(read.fields(), f);
    }
}
