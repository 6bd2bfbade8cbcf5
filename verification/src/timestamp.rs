//! Capture timestamps: naive dates and times of day, read and written
//! through `chrono`.

use vstd::prelude::*;
use chrono::{Datelike, Timelike};
use crate::error::MetadataError;
use crate::text::zero_padded;

verus! {

/// The parts of a date and time of day, as plain numbers. Any combination of
/// numbers can be held; `is_valid` tells which ones name a moment.
#[derive(Clone, Copy, Debug, PartialEq, Eq, Structural)]
pub struct DateTimeFields {
    pub year: i32,
    pub month: u32,
    pub day: u32,
    pub hour: u32,
    pub minute: u32,
    pub second: u32,
    /// Nanoseconds since the whole second. From 1,000,000,000 on, the moment
    /// lies in the leap second that follows second 59.
    pub nanosecond: u32,
}

/// Whether `year` is a leap year of the proleptic Gregorian calendar, in
/// which the year before year 1 is year 0.
pub open spec fn is_leap_year(year: int) -> bool {
    year % 4 == 0 && (year % 100 != 0 || year % 400 == 0)
}

/// The number of days of a month; 0 for a number that names no month.
pub open spec fn days_in_month(year: int, month: int) -> int {
    if month == 2 {
        if is_leap_year(year) {
            29
        } else {
            28
        }
    } else if month == 4 || month == 6 || month == 9 || month == 11 {
        30
    } else if 1 <= month <= 12 {
        31
    } else {
        0
    }
}

/// The first year that a date can lie in.
pub const MIN_YEAR: i32 = -262143;

/// The last year that a date can lie in.
pub const MAX_YEAR: i32 = 262142;

/// The format in which a capture timestamp is written into a file name.
pub const OUTPUT_DATE_FMT: &'static str = "%Y-%m-%dT%H:%M:%S";

impl DateTimeFields {
    /// Whether the fields name a day of the calendar and a time of that day.
    pub open spec fn is_valid(self) -> bool {
        &&& MIN_YEAR <= self.year <= MAX_YEAR
        &&& 1 <= self.day <= days_in_month(self.year as int, self.month as int)
        &&& self.hour < 24
        &&& self.minute < 60
        &&& self.second < 60
        &&& self.nanosecond < 2_000_000_000
        &&& self.nanosecond >= 1_000_000_000 ==> self.second == 59
    }

    /// The second as it is written: 60 within a leap second.
    pub open spec fn written_second(self) -> nat {
        (self.second + self.nanosecond / 1_000_000_000) as nat
    }

    /// The year as it is written: four digits from 0 to 9999, else a sign and
    /// at least four digits.
    pub open spec fn written_year(self) -> Seq<char> {
        if 0 <= self.year <= 9999 {
            zero_padded(self.year as nat, 4)
        } else if self.year < 0 {
            seq!['-'] + zero_padded((-self.year) as nat, 4)
        } else {
            seq!['+'] + zero_padded(self.year as nat, 4)
        }
    }

    /// The moment to the second, as `YYYY-MM-DDTHH:MM:SS`.
    pub open spec fn iso_seconds(self) -> Seq<char> {
        self.written_year() + seq!['-'] + zero_padded(self.month as nat, 2) + seq!['-']
            + zero_padded(self.day as nat, 2) + seq!['T'] + zero_padded(self.hour as nat, 2)
            + seq![':'] + zero_padded(self.minute as nat, 2) + seq![':'] + zero_padded(
            self.written_second(),
            2,
        )
    }

    /// Whether the fields name a day of the calendar and a time of that day.
    pub fn check(&self) -> (valid: bool)
        ensures
            valid == self.is_valid(),
    {
        if self.year < MIN_YEAR || self.year > MAX_YEAR {
            return false;
        }
        // Leap years repeat every 400 years: look at a year that is not negative.
        let shifted: u32 = (self.year + 262400) as u32;
        let leap = shifted % 4 == 0 && (shifted % 100 != 0 || shifted % 400 == 0);
        assert(leap == is_leap_year(self.year as int));
        let days: u32 = if self.month == 2 {
            if leap {
                29
            } else {
                28
            }
        } else if self.month == 4 || self.month == 6 || self.month == 9 || self.month == 11 {
            30
        } else if 1 <= self.month && self.month <= 12 {
            31
        } else {
            0
        };
        1 <= self.day && self.day <= days && self.hour < 24 && self.minute < 60 && self.second
            < 60 && self.nanosecond < 2_000_000_000 && (self.nanosecond < 1_000_000_000
            || self.second == 59)
    }
}

/// `chrono::format::ParseError`, the reason for which `chrono` rejects a
/// text. Nothing is known of what it holds.
#[verifier::external_type_specification]
#[verifier::external_body]
pub struct ExParseError(chrono::format::ParseError);

/// What `chrono` reads from `text` under the format `fmt`: the fields of the
/// date and time, or nothing where it rejects the text.
pub uninterp spec fn parsed_datetime(text: Seq<char>, fmt: Seq<char>) -> Option<DateTimeFields>;

/// `chrono::NaiveDateTime::parse_from_str`, followed by reading the fields
/// of the date and time that it returns: the result is a function of the
/// text and the format alone.
#[verifier::external_body]
pub(crate) fn parse_datetime(
    text: &str,
    fmt: &str,
) -> (parsed: Result<DateTimeFields, chrono::format::ParseError>)
    ensures
        parsed is Ok <==> parsed_datetime(text@, fmt@) is Some,
        parsed matches Ok(fields) ==> parsed_datetime(text@, fmt@) == Some(fields),
{
    let moment = chrono::NaiveDateTime::parse_from_str(text, fmt)?;
    Ok(
        DateTimeFields {
            year: moment.year(),
            month: moment.month(),
            day: moment.day(),
            hour: moment.hour(),
            minute: moment.minute(),
            second: moment.second(),
            nanosecond: moment.nanosecond(),
        },
    )
}

/// `chrono::NaiveDateTime::format` with the format of file names, on the
/// moment that `chrono::NaiveDate::from_ymd_opt` and `and_hms_nano_opt` make
/// of the fields. `chrono` makes a moment of exactly the valid fields, and
/// writes it as `iso_seconds` says: every part zero-padded to its width, the
/// year with a sign outside 0 to 9999, the second as 60 in a leap second.
#[verifier::external_body]
pub(crate) fn format_datetime(fields: &DateTimeFields, fmt: &str) -> (written: Option<String>)
    requires
        fmt@ == OUTPUT_DATE_FMT@,
    ensures
        written is Some <==> fields.is_valid(),
        written matches Some(text) ==> text@ == fields.iso_seconds(),
{
    let date = chrono::NaiveDate::from_ymd_opt(fields.year, fields.month, fields.day)?;
    let moment =
        date.and_hms_nano_opt(fields.hour, fields.minute, fields.second, fields.nanosecond)?;
    Some(moment.format(fmt).to_string())
}

/// A moment without a time zone: a day of the calendar and a time of that
/// day. Its fields are always valid.
#[derive(Clone, Copy, Debug)]
pub struct Timestamp {
    fields: DateTimeFields,
}

impl View for Timestamp {
    type V = DateTimeFields;

    closed spec fn view(&self) -> DateTimeFields {
        self.fields
    }
}

impl Timestamp {
    #[verifier::type_invariant]
    spec fn valid(self) -> bool {
        self.fields.is_valid()
    }

    /// The moment that the fields name, if they name one.
    pub fn new(fields: DateTimeFields) -> (made: Option<Timestamp>)
        ensures
            made is Some <==> fields.is_valid(),
            made matches Some(moment) ==> moment@ == fields,
    {
        if fields.check() {
            Some(Timestamp { fields })
        } else {
            None
        }
    }

    /// The fields of the moment.
    pub fn fields(&self) -> (fields: DateTimeFields)
        ensures
            fields == self@,
            fields.is_valid(),
    {
        proof {
            use_type_invariant(self);
        }
        self.fields
    }

    /// The moment that a reading of a text came to: the one that the fields
    /// name, where the text was accepted and the fields are valid.
    pub fn from_parsed(
        parsed: Result<DateTimeFields, chrono::format::ParseError>,
    ) -> (made: Result<Timestamp, MetadataError>)
        ensures
            made is Ok <==> (parsed matches Ok(fields) && fields.is_valid()),
            made matches Ok(moment) ==> parsed == Ok::<_, chrono::format::ParseError>(moment@),
            made matches Err(error) ==> error == MetadataError::InvalidDate,
    {
        match parsed {
            Ok(fields) => match Timestamp::new(fields) {
                Some(moment) => Ok(moment),
                None => Err(MetadataError::InvalidDate),
            },
            Err(_) => Err(MetadataError::InvalidDate),
        }
    }

    /// Reads `text` as a moment written in the format `fmt`.
    pub fn parse(text: &str, fmt: &str) -> (made: Result<Timestamp, MetadataError>)
        ensures
            made is Ok <==> (parsed_datetime(text@, fmt@) matches Some(fields)
                && fields.is_valid()),
            made matches Ok(moment) ==> parsed_datetime(text@, fmt@) == Some(moment@),
            made matches Err(error) ==> error == MetadataError::InvalidDate,
    {
        Timestamp::from_parsed(parse_datetime(text, fmt))
    }

    /// The moment to the second, as `YYYY-MM-DDTHH:MM:SS`.
    pub fn format(&self) -> (text: String)
        ensures
            text@ == self@.iso_seconds(),
    {
        proof {
            use_type_invariant(self);
        }
        match format_datetime(&self.fields, OUTPUT_DATE_FMT) {
            Some(text) => text,
            None => vstd::pervasive::unreached(),
        }
    }
}

} // verus!
