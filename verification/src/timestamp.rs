//! A Wayback Machine URL timestamp: a second-precision UTC instant, written as the fourteen digits
//! of its year, month, day, hour, minute and second.
use chrono::{Datelike, TimeZone, Timelike};
use vstd::prelude::*;

use crate::decimal;
use crate::numeral;
use crate::text::{chars_of, string_of};

verus! {

/// The first second of the year 1000, counted from the start of 1970.
pub const MIN_TIMESTAMP_SECS: i64 = -30_610_224_000;

/// The last second of the year 9999, counted from the start of 1970.
pub const MAX_TIMESTAMP_SECS: i64 = 253_402_300_799;

/// The first second that a `chrono` date-time can hold.
pub const MIN_DATETIME_SECS: i64 = -8_334_601_228_800;

/// The last second that a `chrono` date-time can hold.
pub const MAX_DATETIME_SECS: i64 = 8_210_266_876_799;

/// The number of characters in the text of a timestamp.
pub const TIMESTAMP_LEN: usize = 14;

/// An error encountered while parsing or converting a timestamp.
#[derive(Debug, PartialEq, Eq)]
pub enum Error {
    /// The input is not exactly fourteen bytes long.
    InvalidLength(String),
    /// The integer is out of range for a Unix epoch second timestamp.
    InvalidTimestampI64(i64),
    /// The date-time has subsecond precision, which a timestamp cannot represent.
    SubsecondDateTime {
        /// The whole seconds of the date-time.
        secs: i64,
        /// The nanoseconds that follow them.
        nanos: u32,
    },
    /// The value is not a valid timestamp representation.
    InvalidValue(String),
}

/// The fields of a date and time of day in the proleptic Gregorian calendar.
#[derive(Clone, Copy, Debug, PartialEq, Eq, Structural)]
pub struct CivilTime {
    /// The year, with the year 0 being 1 BCE.
    pub year: i32,
    /// The month, 1 to 12.
    pub month: u32,
    /// The day of the month, starting at 1.
    pub day: u32,
    /// The hour, 0 to 23.
    pub hour: u32,
    /// The minute, 0 to 59.
    pub minute: u32,
    /// The second, 0 to 59.
    pub second: u32,
}

/// Whether a year has a 29th of February.
pub open spec fn is_leap_year(year: int) -> bool {
    year % 4 == 0 && (year % 100 != 0 || year % 400 == 0)
}

/// The number of days in a month.
pub open spec fn days_in_month(year: int, month: int) -> int {
    if month == 2 {
        if is_leap_year(year) {
            29
        } else {
            28
        }
    } else if month == 4 || month == 6 || month == 9 || month == 11 {
        30
    } else {
        31
    }
}

/// The number of days from the start of the year 1 to the start of a year.
pub open spec fn days_before_year(year: int) -> int {
    365 * (year - 1) + (year - 1) / 4 - (year - 1) / 100 + (year - 1) / 400
}

/// The number of days from the start of a year to the start of a month.
pub open spec fn days_before_month(year: int, month: int) -> int
    decreases month,
{
    if month <= 1 {
        0
    } else {
        days_before_month(year, month - 1) + days_in_month(year, month - 1)
    }
}

impl CivilTime {
    /// Whether there is such a date and such a time of day.
    pub open spec fn is_valid(&self) -> bool {
        &&& 1 <= self.month <= 12
        &&& 1 <= self.day <= days_in_month(self.year as int, self.month as int)
        &&& self.hour < 24
        &&& self.minute < 60
        &&& self.second < 60
    }

    /// The number of days from the start of 1970 to this date.
    pub open spec fn epoch_day(&self) -> int {
        days_before_year(self.year as int) + days_before_month(self.year as int, self.month as int)
            + self.day - 1 - days_before_year(1970)
    }

    /// The number of seconds since the start of the day.
    pub open spec fn second_of_day(&self) -> int {
        self.hour * 3600 + self.minute * 60 + self.second
    }

    /// The number of seconds from the start of 1970 to this instant.
    pub open spec fn epoch_seconds(&self) -> int {
        self.epoch_day() * 86_400 + self.second_of_day()
    }

    /// The year, written with four digits, or with a sign and at least four digits where four are
    /// not enough.
    pub open spec fn year_text(&self) -> Seq<char> {
        let size = if self.year < 0 {
            -(self.year as int)
        } else {
            self.year as int
        };
        let places: nat = if size < 10_000 {
            4
        } else if size < 100_000 {
            5
        } else {
            6
        };
        if 0 <= self.year <= 9999 {
            decimal::padded(size as nat, 4)
        } else {
            seq![if self.year < 0 { '-' } else { '+' }] + decimal::padded(size as nat, places)
        }
    }

    /// The year, month, day, hour, minute and second, written one after the other.
    pub open spec fn text(&self) -> Seq<char> {
        self.year_text() + decimal::padded(self.month as nat, 2) + decimal::padded(
            self.day as nat,
            2,
        ) + decimal::padded(self.hour as nat, 2) + decimal::padded(self.minute as nat, 2)
            + decimal::padded(self.second as nat, 2)
    }
}

/// A year is as many days long as the next year starts later.
#[verifier::spinoff_prover]
proof fn lemma_year_length(year: int)
    ensures
        days_before_year(year + 1) == days_before_year(year) + if is_leap_year(year) {
            366int
        } else {
            365int
        },
{
    assert(year / 4 == (year - 1) / 4 + if year % 4 == 0 {
        1int
    } else {
        0int
    });
    assert(year / 100 == (year - 1) / 100 + if year % 100 == 0 {
        1int
    } else {
        0int
    });
    assert(year / 400 == (year - 1) / 400 + if year % 400 == 0 {
        1int
    } else {
        0int
    });
}

proof fn lemma_years_ordered(a: int, b: int)
    requires
        a <= b,
    ensures
        days_before_year(a) <= days_before_year(b),
    decreases b - a,
{
    if a < b {
        lemma_years_ordered(a, b - 1);
        lemma_year_length(b - 1);
    }
}

/// The dates of a year lie within its length.
proof fn lemma_day_of_year(year: int, month: int, day: int)
    requires
        1 <= month <= 12,
        1 <= day <= days_in_month(year, month),
    ensures
        0 <= days_before_month(year, month) + day - 1 < if is_leap_year(year) {
            366int
        } else {
            365int
        },
{
    reveal_with_fuel(days_before_month, 13);
    assert(days_before_month(year, 12) + 31 == if is_leap_year(year) {
        366int
    } else {
        365int
    });
}

/// No two dates of a year fall on one day.
proof fn lemma_date_unique(year: int, m1: int, d1: int, m2: int, d2: int)
    requires
        1 <= m1 <= 12,
        1 <= d1 <= days_in_month(year, m1),
        1 <= m2 <= 12,
        1 <= d2 <= days_in_month(year, m2),
        days_before_month(year, m1) + d1 == days_before_month(year, m2) + d2,
    ensures
        m1 == m2,
        d1 == d2,
{
    reveal_with_fuel(days_before_month, 13);
}

/// A day falls in one year.
#[verifier::spinoff_prover]
proof fn lemma_year_unique(y1: int, d1: int, y2: int, d2: int)
    requires
        0 <= d1 < days_before_year(y1 + 1) - days_before_year(y1),
        0 <= d2 < days_before_year(y2 + 1) - days_before_year(y2),
        days_before_year(y1) + d1 == days_before_year(y2) + d2,
    ensures
        y1 == y2,
{
    if y1 < y2 {
        lemma_years_ordered(y1 + 1, y2);
    }
    if y2 < y1 {
        lemma_years_ordered(y2 + 1, y1);
    }
}

/// An instant falls on one second of one day.
proof fn lemma_second_unique(d1: int, s1: int, d2: int, s2: int)
    requires
        0 <= s1 < 86_400,
        0 <= s2 < 86_400,
        d1 * 86_400 + s1 == d2 * 86_400 + s2,
    ensures
        d1 == d2,
        s1 == s2,
{
}

/// Two valid dates and times at the same second are the same.
#[verifier::spinoff_prover]
pub proof fn lemma_civil_unique(a: CivilTime, b: CivilTime)
    requires
        a.is_valid(),
        b.is_valid(),
        a.epoch_seconds() == b.epoch_seconds(),
    ensures
        a == b,
{
    let ya = a.year as int;
    let yb = b.year as int;
    lemma_second_unique(a.epoch_day(), a.second_of_day(), b.epoch_day(), b.second_of_day());
    let da = days_before_month(ya, a.month as int) + a.day - 1;
    let db = days_before_month(yb, b.month as int) + b.day - 1;
    lemma_day_of_year(ya, a.month as int, a.day as int);
    lemma_day_of_year(yb, b.month as int, b.day as int);
    lemma_year_length(ya);
    lemma_year_length(yb);
    lemma_year_unique(ya, da, yb, db);
    lemma_date_unique(ya, a.month as int, a.day as int, b.month as int, b.day as int);
}

/// Whether an instant lies in the years 1000 to 9999.
pub open spec fn is_supported(secs: int) -> bool {
    MIN_TIMESTAMP_SECS <= secs <= MAX_TIMESTAMP_SECS
}

/// The instants of the years 1000 to 9999 are those of the supported range.
#[verifier::spinoff_prover]
proof fn lemma_supported_years(t: CivilTime)
    requires
        t.is_valid(),
    ensures
        is_supported(t.epoch_seconds()) <==> 1000 <= t.year <= 9999,
{
    let year = t.year as int;
    let day = t.epoch_day();
    assert(0 <= t.second_of_day() < 86_400);
    lemma_day_of_year(year, t.month as int, t.day as int);
    lemma_year_length(year);
    assert(days_before_year(1970) == 719_162);
    assert(days_before_year(1000) == 364_877);
    assert(days_before_year(10_000) == 3_652_059);
    assert(days_before_year(year) - 719_162 <= day < days_before_year(year + 1) - 719_162);
    if year < 1000 {
        lemma_years_ordered(year + 1, 1000);
        assert(day < -354_285);
    } else {
        lemma_years_ordered(1000, year);
        assert(day >= -354_285);
    }
    if year > 9999 {
        lemma_years_ordered(10_000, year);
        assert(day >= 2_932_897);
    } else {
        lemma_years_ordered(year + 1, 10_000);
        assert(day < 2_932_897);
    }
}

/// The start of each day from the first day of 1000 to the last day of 9999.
proof fn civil_at_day(day: int) -> (t: CivilTime)
    requires
        MIN_TIMESTAMP_SECS <= day * 86_400 <= MAX_TIMESTAMP_SECS,
    ensures
        t.is_valid(),
        t.epoch_day() == day,
        t.second_of_day() == 0,
        1000 <= t.year <= 9999,
    decreases day * 86_400 - MIN_TIMESTAMP_SECS,
{
    if day * 86_400 == MIN_TIMESTAMP_SECS {
        CivilTime { year: 1000, month: 1, day: 1, hour: 0, minute: 0, second: 0 }
    } else {
        let t = civil_at_day(day - 1);
        let year = t.year as int;
        if t.day < days_in_month(year, t.month as int) {
            CivilTime { day: (t.day + 1) as u32, ..t }
        } else if t.month < 12 {
            CivilTime { month: (t.month + 1) as u32, day: 1, ..t }
        } else {
            reveal_with_fuel(days_before_month, 13);
            lemma_year_length(year);
            CivilTime { year: (t.year + 1) as i32, month: 1, day: 1, ..t }
        }
    }
}

/// There is a date and time of day for each instant of the supported range.
proof fn civil_at(secs: int) -> (t: CivilTime)
    requires
        is_supported(secs),
    ensures
        t.is_valid(),
        t.epoch_seconds() == secs,
{
    let t = civil_at_day(secs / 86_400);
    let rest = secs % 86_400;
    CivilTime {
        hour: (rest / 3600) as u32,
        minute: (rest % 3600 / 60) as u32,
        second: (rest % 60) as u32,
        ..t
    }
}

/// The date and time of day at an instant.
pub open spec fn civil_of(secs: int) -> CivilTime {
    choose|t: CivilTime| t.is_valid() && t.epoch_seconds() == secs
}

/// The text of an instant.
pub open spec fn timestamp_text(secs: int) -> Seq<char> {
    civil_of(secs).text()
}

/// The fields that fourteen digits stand for.
pub open spec fn fields_of(text: Seq<char>) -> CivilTime {
    CivilTime {
        year: decimal::number_of(text.subrange(0, 4)) as i32,
        month: decimal::number_of(text.subrange(4, 6)) as u32,
        day: decimal::number_of(text.subrange(6, 8)) as u32,
        hour: decimal::number_of(text.subrange(8, 10)) as u32,
        minute: decimal::number_of(text.subrange(10, 12)) as u32,
        second: decimal::number_of(text.subrange(12, 14)) as u32,
    }
}

/// The instant that fourteen digits stand for.
pub open spec fn timestamp_value(text: Seq<char>) -> int {
    fields_of(text).epoch_seconds()
}

/// Whether a text is fourteen digits that stand for an instant of the supported range.
pub open spec fn is_timestamp_text(text: Seq<char>) -> bool {
    &&& text.len() == TIMESTAMP_LEN
    &&& decimal::all_digits(text)
    &&& fields_of(text).is_valid()
    &&& is_supported(timestamp_value(text))
}

/// How many digits a capture time with milliseconds has.
pub const MILLISECOND_LEN: usize = 17;

/// Whether a text is a capture time of a CDX record: the fourteen digits of a date and time of day that
/// exist, in any year, or these and three digits of milliseconds.
pub open spec fn is_capture_text(text: Seq<char>) -> bool {
    &&& text.len() == TIMESTAMP_LEN || text.len() == MILLISECOND_LEN
    &&& decimal::all_digits(text)
    &&& fields_of(text).is_valid()
}

/// The text of every timestamp is a capture time.
pub proof fn law_timestamps_are_capture_times(text: Seq<char>)
    requires
        is_timestamp_text(text),
    ensures
        is_capture_text(text),
{
}

/// `with_ymd_and_hms` and `timestamp` of `chrono`: the Unix seconds of a UTC date and time in the
/// proleptic Gregorian calendar, or `None` if there is no such date or time of day. A leap second
/// is no time of day here.
#[verifier::external_body]
fn unix_seconds(t: &CivilTime) -> (secs: Option<i64>)
    requires
        0 <= t.year <= 9999,
    ensures
        match secs {
            Some(secs) => t.is_valid() && secs == t.epoch_seconds(),
            None => !t.is_valid(),
        },
{
    let local = chrono::Utc.with_ymd_and_hms(t.year, t.month, t.day, t.hour, t.minute, t.second);
    local.single().map(|instant| instant.timestamp())
}

/// `DateTime::from_timestamp` of `chrono` and the field accessors of its result: the date and time
/// of day in the proleptic Gregorian calendar at the given Unix second, which lies in the range
/// that a `DateTime` can hold.
#[verifier::external_body]
fn civil_time(secs: i64) -> (t: CivilTime)
    requires
        MIN_DATETIME_SECS <= secs <= MAX_DATETIME_SECS,
    ensures
        t.is_valid(),
        t.epoch_seconds() == secs,
        -262_143 <= t.year <= 262_142,
{
    let d = chrono::DateTime::from_timestamp(secs, 0).unwrap();
    CivilTime {
        year: d.year(),
        month: d.month(),
        day: d.day(),
        hour: d.hour(),
        minute: d.minute(),
        second: d.second(),
    }
}

/// A Wayback Machine URL timestamp.
#[derive(Clone, Copy, Debug, PartialEq, Eq, PartialOrd, Ord, Hash, Structural)]
pub struct Timestamp {
    secs: i64,
}

impl View for Timestamp {
    type V = int;

    /// The number of seconds since the start of 1970.
    closed spec fn view(&self) -> int {
        self.secs as int
    }
}

/// A timestamp is known by its seconds.
pub proof fn lemma_timestamp_unique(a: Timestamp, b: Timestamp)
    ensures
        a@ == b@ ==> a == b,
        i64::MIN <= a@ <= i64::MAX,
{
}

/// Reads the fields of fourteen digits.
fn read_fields(chars: &[char]) -> (fields: Option<CivilTime>)
    requires
        chars@.len() == TIMESTAMP_LEN,
    ensures
        match fields {
            Some(fields) => decimal::all_digits(chars@) && fields == fields_of(chars@)
                && 0 <= fields.year <= 9999,
            None => !decimal::all_digits(chars@),
        },
{
    proof {
        lemma_field_digits(chars@);
    }
    match (
        decimal::read_digits(chars, 0, 4),
        decimal::read_digits(chars, 4, 2),
        decimal::read_digits(chars, 6, 2),
        decimal::read_digits(chars, 8, 2),
        decimal::read_digits(chars, 10, 2),
        decimal::read_digits(chars, 12, 2),
    ) {
        (Some(year), Some(month), Some(day), Some(hour), Some(minute), Some(second)) => {
            proof {
                lemma_field_bounds(chars@);
            }
            let fields = CivilTime { year: year as i32, month, day, hour, minute, second };
            assert(fields == fields_of(chars@));
            Some(fields)
        },
        _ => None,
    }
}

/// Tests whether a text is a capture time of a CDX record.
pub fn test_capture_text(chars: &[char]) -> (found: bool)
    ensures
        found == is_capture_text(chars@),
{
    if chars.len() != TIMESTAMP_LEN && chars.len() != MILLISECOND_LEN {
        return false;
    }
    let head = vstd::slice::slice_subrange(chars, 0, TIMESTAMP_LEN);
    let mut i: usize = TIMESTAMP_LEN;
    while i < chars.len()
        invariant
            TIMESTAMP_LEN <= i <= chars@.len(),
            forall|k: int|
                TIMESTAMP_LEN <= k < i ==> decimal::is_digit(#[trigger] chars@[k]),
        decreases chars@.len() - i,
    {
        if !('0' <= chars[i] && chars[i] <= '9') {
            return false;
        }
        i = i + 1;
    }
    proof {
        assert(forall|k: int|
            0 <= k < TIMESTAMP_LEN ==> #[trigger] chars@[k] == head@[k]);
        assert(head@.subrange(0, 4) =~= chars@.subrange(0, 4));
        assert(head@.subrange(4, 6) =~= chars@.subrange(4, 6));
        assert(head@.subrange(6, 8) =~= chars@.subrange(6, 8));
        assert(head@.subrange(8, 10) =~= chars@.subrange(8, 10));
        assert(head@.subrange(10, 12) =~= chars@.subrange(10, 12));
        assert(head@.subrange(12, 14) =~= chars@.subrange(12, 14));
    }
    match read_fields(head) {
        Some(fields) => unix_seconds(&fields).is_some(),
        None => false,
    }
}

impl Timestamp {
    /// The instant is one that a `chrono` date-time can hold.
    #[verifier::type_invariant]
    spec fn is_representable(self) -> bool {
        MIN_DATETIME_SECS <= self.secs <= MAX_DATETIME_SECS
    }

    /// The timestamp of a date-time given as whole seconds since the start of 1970 and the
    /// nanoseconds that follow them. A date-time with nanoseconds is refused.
    pub fn from_datetime(secs: i64, nanos: u32) -> (result: Result<Timestamp, Error>)
        requires
            MIN_DATETIME_SECS <= secs <= MAX_DATETIME_SECS,
        ensures
            match result {
                Ok(timestamp) => nanos == 0 && timestamp@ == secs,
                Err(error) => nanos != 0 && error == (Error::SubsecondDateTime { secs, nanos }),
            },
    {
        if nanos == 0 {
            Ok(Timestamp { secs })
        } else {
            Err(Error::SubsecondDateTime { secs, nanos })
        }
    }

    /// The timestamp of a number of seconds since the start of 1970, in the years 1000 to 9999.
    pub fn from_secs(secs: i64) -> (result: Result<Timestamp, Error>)
        ensures
            match result {
                Ok(timestamp) => is_supported(secs as int) && timestamp@ == secs,
                Err(error) => !is_supported(secs as int) && error == Error::InvalidTimestampI64(
                    secs,
                ),
            },
    {
        if MIN_TIMESTAMP_SECS <= secs && secs <= MAX_TIMESTAMP_SECS {
            Ok(Timestamp { secs })
        } else {
            Err(Error::InvalidTimestampI64(secs))
        }
    }

    /// The number of seconds since the start of 1970.
    pub fn to_secs(&self) -> (secs: i64)
        ensures
            secs == self@,
    {
        self.secs
    }

    /// Parses fourteen digits.
    pub fn from_chars(chars: &[char]) -> (parsed: Option<Timestamp>)
        ensures
            match parsed {
                Some(timestamp) => is_timestamp_text(chars@) && timestamp@ == timestamp_value(
                    chars@,
                ),
                None => !is_timestamp_text(chars@),
            },
    {
        if chars.len() != TIMESTAMP_LEN {
            return None;
        }
        let fields = match read_fields(chars) {
            Some(fields) => fields,
            None => return None,
        };
        match unix_seconds(&fields) {
            Some(secs) => {
                if MIN_TIMESTAMP_SECS <= secs && secs <= MAX_TIMESTAMP_SECS {
                    Some(Timestamp { secs })
                } else {
                    None
                }
            },
            None => None,
        }
    }

    /// Parses fourteen digits, saying why a text is refused.
    pub fn parse_str(text: &str) -> (parsed: Result<Timestamp, Error>)
        ensures
            match parsed {
                Ok(timestamp) => is_timestamp_text(text@) && timestamp@ == timestamp_value(text@),
                Err(Error::InvalidLength(input)) => input@ == text@
                    && vstd::utf8::encode_utf8(text@).len() != TIMESTAMP_LEN,
                Err(Error::InvalidValue(input)) => input@ == text@ && !is_timestamp_text(text@)
                    && vstd::utf8::encode_utf8(text@).len() == TIMESTAMP_LEN,
                Err(_) => false,
            },
            is_timestamp_text(text@) ==> parsed is Ok,
    {
        proof {
            if is_timestamp_text(text@) {
                lemma_digits_are_bytes(text@);
            }
        }
        let bytes = text.as_bytes();
        if bytes.len() != TIMESTAMP_LEN {
            return Err(Error::InvalidLength(text.to_owned()));
        }
        let chars = chars_of(text);
        match Timestamp::from_chars(&chars) {
            Some(timestamp) => Ok(timestamp),
            None => Err(Error::InvalidValue(text.to_owned())),
        }
    }

    /// The characters of the timestamp's text.
    pub fn to_chars(&self) -> (chars: Vec<char>)
        ensures
            chars@ == timestamp_text(self@),
    {
        proof {
            use_type_invariant(self);
        }
        let t = civil_time(self.secs);
        proof {
            lemma_civil_unique(t, civil_of(self@));
        }
        let mut chars: Vec<char> = Vec::new();
        let size: u32 = if t.year < 0 {
            (-t.year) as u32
        } else {
            t.year as u32
        };
        if 0 <= t.year && t.year <= 9999 {
            decimal::push_padded(&mut chars, size, 4);
        } else {
            chars.push(
                if t.year < 0 {
                    '-'
                } else {
                    '+'
                },
            );
            let places: usize = if size < 10_000 {
                4
            } else if size < 100_000 {
                5
            } else {
                6
            };
            decimal::push_padded(&mut chars, size, places);
        }
        assert(chars@ =~= t.year_text());
        decimal::push_padded(&mut chars, t.month, 2);
        decimal::push_padded(&mut chars, t.day, 2);
        decimal::push_padded(&mut chars, t.hour, 2);
        decimal::push_padded(&mut chars, t.minute, 2);
        decimal::push_padded(&mut chars, t.second, 2);
        chars
    }

    /// The timestamp's text: fourteen digits for every instant of the years 1000 to 9999.
    pub fn to_string(&self) -> (text: String)
        ensures
            text@ == timestamp_text(self@),
    {
        let chars = self.to_chars();
        string_of(&chars)
    }
}

/// Fourteen characters are digits if those of each field are.
proof fn lemma_field_digits(text: Seq<char>)
    requires
        text.len() == TIMESTAMP_LEN,
    ensures
        decimal::all_digits(text) <==> {
            &&& decimal::all_digits(text.subrange(0, 4))
            &&& decimal::all_digits(text.subrange(4, 6))
            &&& decimal::all_digits(text.subrange(6, 8))
            &&& decimal::all_digits(text.subrange(8, 10))
            &&& decimal::all_digits(text.subrange(10, 12))
            &&& decimal::all_digits(text.subrange(12, 14))
        },
{
    if decimal::all_digits(text.subrange(0, 4)) && decimal::all_digits(text.subrange(4, 6))
        && decimal::all_digits(text.subrange(6, 8)) && decimal::all_digits(text.subrange(8, 10))
        && decimal::all_digits(text.subrange(10, 12)) && decimal::all_digits(
        text.subrange(12, 14),
    ) {
        assert forall|i: int| 0 <= i < text.len() implies decimal::is_digit(#[trigger] text[i]) by {
            if i < 4 {
                assert(text[i] == text.subrange(0, 4)[i]);
            } else {
                let start = i - i % 2;
                assert(text[i] == text.subrange(start, start + 2)[i - start]);
            }
        }
    }
    if decimal::all_digits(text) {
        assert forall|a: int, b: int| 0 <= a <= b <= 14 implies decimal::all_digits(
            #[trigger] text.subrange(a, b),
        ) by {
            assert forall|i: int| 0 <= i < b - a implies decimal::is_digit(
                #[trigger] text.subrange(a, b)[i],
            ) by {
                assert(text.subrange(a, b)[i] == text[a + i]);
            }
        }
    }
}

/// Each field is a number of as many digits as it has characters.
proof fn lemma_field_bounds(text: Seq<char>)
    requires
        text.len() == TIMESTAMP_LEN,
        decimal::all_digits(text),
    ensures
        decimal::number_of(text.subrange(0, 4)) < 10_000,
        decimal::number_of(text.subrange(4, 6)) < 100,
        decimal::number_of(text.subrange(6, 8)) < 100,
        decimal::number_of(text.subrange(8, 10)) < 100,
        decimal::number_of(text.subrange(10, 12)) < 100,
        decimal::number_of(text.subrange(12, 14)) < 100,
{
    decimal::lemma_small_powers();
    lemma_field_digits(text);
    decimal::lemma_padded_number_of(text.subrange(0, 4));
    decimal::lemma_padded_number_of(text.subrange(4, 6));
    decimal::lemma_padded_number_of(text.subrange(6, 8));
    decimal::lemma_padded_number_of(text.subrange(8, 10));
    decimal::lemma_padded_number_of(text.subrange(10, 12));
    decimal::lemma_padded_number_of(text.subrange(12, 14));
}

/// A text of digits takes one byte per character.
pub proof fn lemma_digits_are_bytes(text: Seq<char>)
    requires
        decimal::all_digits(text),
    ensures
        vstd::utf8::encode_utf8(text).len() == text.len(),
{
    assert(vstd::utf8::is_ascii_chars(text)) by {
        assert forall|i: int| 0 <= i < text.len() implies (text[i] as u32) < 128 by {
            assert(decimal::is_digit(text[i]));
        }
    }
    vstd::utf8::is_ascii_chars_encode_utf8(text);
}

/// Every timestamp of the years 1000 to 9999 is written as fourteen digits that parse back to it.
pub proof fn law_timestamp_text_parses_back(secs: int)
    requires
        is_supported(secs),
    ensures
        is_timestamp_text(timestamp_text(secs)),
        timestamp_value(timestamp_text(secs)) == secs,
{
    let witness = civil_at(secs);
    let t = civil_of(secs);
    lemma_supported_years(t);
    let text = t.text();
    decimal::lemma_small_powers();
    decimal::lemma_padded_len(t.year as nat, 4);
    decimal::lemma_padded_len(t.month as nat, 2);
    decimal::lemma_padded_len(t.day as nat, 2);
    decimal::lemma_padded_len(t.hour as nat, 2);
    decimal::lemma_padded_len(t.minute as nat, 2);
    decimal::lemma_padded_len(t.second as nat, 2);
    assert(text.subrange(0, 4) =~= decimal::padded(t.year as nat, 4));
    assert(text.subrange(4, 6) =~= decimal::padded(t.month as nat, 2));
    assert(text.subrange(6, 8) =~= decimal::padded(t.day as nat, 2));
    assert(text.subrange(8, 10) =~= decimal::padded(t.hour as nat, 2));
    assert(text.subrange(10, 12) =~= decimal::padded(t.minute as nat, 2));
    assert(text.subrange(12, 14) =~= decimal::padded(t.second as nat, 2));
    lemma_field_digits(text);
    decimal::lemma_number_of_padded(t.year as nat, 4);
    decimal::lemma_number_of_padded(t.month as nat, 2);
    decimal::lemma_number_of_padded(t.day as nat, 2);
    decimal::lemma_number_of_padded(t.hour as nat, 2);
    decimal::lemma_number_of_padded(t.minute as nat, 2);
    decimal::lemma_number_of_padded(t.second as nat, 2);
    assert(fields_of(text) == t);
}

/// A text that parses is the text of the instant that it stands for.
pub proof fn law_timestamp_parse_writes_back(text: Seq<char>)
    requires
        is_timestamp_text(text),
    ensures
        timestamp_text(timestamp_value(text)) == text,
{
    let t = fields_of(text);
    lemma_civil_unique(t, civil_of(timestamp_value(text)));
    lemma_field_digits(text);
    lemma_field_bounds(text);
    decimal::lemma_padded_number_of(text.subrange(0, 4));
    decimal::lemma_padded_number_of(text.subrange(4, 6));
    decimal::lemma_padded_number_of(text.subrange(6, 8));
    decimal::lemma_padded_number_of(text.subrange(8, 10));
    decimal::lemma_padded_number_of(text.subrange(10, 12));
    decimal::lemma_padded_number_of(text.subrange(12, 14));
    assert(t.text() =~= text);
}

/// A text is a timestamp exactly if it is the fourteen digits of a date and time of day in the years from 1000
/// on. A capture time may lie in an earlier year too, and may have three more digits.
pub proof fn law_which_texts_are_timestamps(text: Seq<char>)
    requires
        text.len() >= 14,
        decimal::all_digits(text),
    ensures
        ({
            let year = decimal::number_of(text.subrange(0, 4)) as int;
            let month = decimal::number_of(text.subrange(4, 6));
            let day = decimal::number_of(text.subrange(6, 8));
            let is_leap = year % 4 == 0 && (year % 100 != 0 || year % 400 == 0);
            let last: int = if month == 2 {
                if is_leap {
                    29
                } else {
                    28
                }
            } else if month == 4 || month == 6 || month == 9 || month == 11 {
                30
            } else {
                31
            };
            let exists_at = {
                &&& 1 <= month <= 12
                &&& 1 <= day <= last
                &&& decimal::number_of(text.subrange(8, 10)) <= 23
                &&& decimal::number_of(text.subrange(10, 12)) <= 59
                &&& decimal::number_of(text.subrange(12, 14)) <= 59
            };
            &&& is_timestamp_text(text) <==> text.len() == 14 && exists_at && year >= 1000
            &&& is_capture_text(text) <==> (text.len() == 14 || text.len() == 17) && exists_at
        }),
{
    decimal::lemma_small_powers();
    assert forall|a: int, b: int| 0 <= a <= b <= text.len() implies decimal::all_digits(
        #[trigger] text.subrange(a, b),
    ) by {
        assert forall|i: int| 0 <= i < b - a implies decimal::is_digit(
            #[trigger] text.subrange(a, b)[i],
        ) by {
            assert(decimal::is_digit(text[a + i]));
        }
    }
    decimal::lemma_padded_number_of(text.subrange(0, 4));
    decimal::lemma_padded_number_of(text.subrange(4, 6));
    decimal::lemma_padded_number_of(text.subrange(6, 8));
    decimal::lemma_padded_number_of(text.subrange(8, 10));
    decimal::lemma_padded_number_of(text.subrange(10, 12));
    decimal::lemma_padded_number_of(text.subrange(12, 14));
    let fields = fields_of(text);
    if fields.is_valid() {
        lemma_supported_years(fields);
    }
}

/// Time goes by the calendar: a day later is a day of 86,400 seconds later, on the next day of the month, the
/// first of the next month or the first of the next year.
pub proof fn law_days_follow_each_other(t: CivilTime, next: CivilTime)
    requires
        t.is_valid(),
        next.is_valid(),
        (next.hour, next.minute, next.second) == (t.hour, t.minute, t.second),
        ({
            ||| (next.year, next.month) == (t.year, t.month) && next.day == t.day + 1
            ||| next.year == t.year && next.month == t.month + 1 && next.day == 1 && t.day
                == days_in_month(t.year as int, t.month as int)
            ||| next.year == t.year + 1 && (next.month, next.day) == (1u32, 1u32) && (t.month, t.day)
                == (12u32, 31u32)
        }),
    ensures
        next.epoch_seconds() == t.epoch_seconds() + 86_400,
{
    lemma_year_length(t.year as int);
    reveal_with_fuel(days_before_month, 13);
}

/// A date and time is a timestamp exactly if it falls on a whole second.
pub proof fn law_whole_seconds_are_timestamps(secs: i64, nanos: u32, result: Result<Timestamp, Error>)
    requires
        call_ensures(Timestamp::from_datetime, (secs, nanos), result),
    ensures
        result is Ok <==> nanos == 0,
        result matches Ok(timestamp) ==> timestamp@ == secs,
        result matches Err(error) ==> error == (Error::SubsecondDateTime { secs, nanos }),
{
}

/// A number of seconds is a timestamp exactly if it falls in the years from 1000 to 9999.
pub proof fn law_seconds_are_timestamps(t: CivilTime, secs: i64, result: Result<Timestamp, Error>)
    requires
        call_ensures(Timestamp::from_secs, (secs,), result),
        t.is_valid(),
        t.epoch_seconds() == secs,
    ensures
        result is Ok <==> 1000 <= t.year <= 9999,
        result matches Ok(timestamp) ==> timestamp@ == secs,
        result matches Err(error) ==> error == Error::InvalidTimestampI64(secs),
{
    lemma_supported_years(t);
}

/// A text of another length in bytes than fourteen is reported as such, and one of that length that is no
/// timestamp as an invalid value, each with the text.
pub proof fn law_timestamp_errors(text: &str, parsed: Result<Timestamp, Error>)
    requires
        call_ensures(Timestamp::parse_str, (text,), parsed),
    ensures
        parsed is Ok <==> is_timestamp_text(text@),
        parsed matches Ok(timestamp) ==> timestamp_text(timestamp@) == text@,
        parsed matches Err(error) ==> {
            if vstd::utf8::encode_utf8(text@).len() == 14 {
                error matches Error::InvalidValue(input) && input@ == text@
            } else {
                error matches Error::InvalidLength(input) && input@ == text@
            }
        },
{
    if is_timestamp_text(text@) {
        law_timestamp_parse_writes_back(text@);
    }
}

/// A year is written with four digits, and one outside the years from 0 to 9999 with its sign in front and as
/// many digits as it needs, but at least four.
pub proof fn law_years_are_written(t: CivilTime)
    requires
        -999_999 <= t.year <= 999_999,
    ensures
        ({
            let text = t.year_text();
            let size = if t.year < 0 {
                -(t.year as int)
            } else {
                t.year as int
            };
            let digits = if 0 <= t.year <= 9999 {
                text
            } else {
                text.skip(1)
            };
            &&& !(0 <= t.year <= 9999) ==> text[0] == if t.year < 0 {
                '-'
            } else {
                '+'
            }
            &&& decimal::all_digits(digits)
            &&& decimal::number_of(digits) == size
            &&& digits.len() == if size < 10_000 {
                4int
            } else if size < 100_000 {
                5
            } else {
                6
            }
        }),
{
    let size = if t.year < 0 {
        (-(t.year as int)) as nat
    } else {
        t.year as nat
    };
    let places: nat = if size < 10_000 {
        4
    } else if size < 100_000 {
        5
    } else {
        6
    };
    assert(numeral::power(10, 4) == 10_000 && numeral::power(10, 5) == 100_000 && numeral::power(10, 6)
        == 1_000_000) by {
        reveal_with_fuel(numeral::power, 7);
    }
    decimal::lemma_padded_len(size, places);
    decimal::lemma_number_of_padded(size, places);
    if !(0 <= t.year <= 9999) {
        assert(t.year_text().skip(1) =~= decimal::padded(size, places));
    }
}

/// A date and time is written as its year and two digits each for its month, day, hour, minute and second.
pub proof fn law_times_are_written(t: CivilTime)
    requires
        t.is_valid(),
        0 <= t.year <= 9999,
    ensures
        t.text().len() == 14,
        decimal::all_digits(t.text()),
        decimal::number_of(t.text().subrange(0, 4)) == t.year,
        decimal::number_of(t.text().subrange(4, 6)) == t.month,
        decimal::number_of(t.text().subrange(6, 8)) == t.day,
        decimal::number_of(t.text().subrange(8, 10)) == t.hour,
        decimal::number_of(t.text().subrange(10, 12)) == t.minute,
        decimal::number_of(t.text().subrange(12, 14)) == t.second,
{
    decimal::lemma_small_powers();
    let text = t.text();
    decimal::lemma_padded_len(t.year as nat, 4);
    decimal::lemma_padded_len(t.month as nat, 2);
    decimal::lemma_padded_len(t.day as nat, 2);
    decimal::lemma_padded_len(t.hour as nat, 2);
    decimal::lemma_padded_len(t.minute as nat, 2);
    decimal::lemma_padded_len(t.second as nat, 2);
    decimal::lemma_number_of_padded(t.year as nat, 4);
    decimal::lemma_number_of_padded(t.month as nat, 2);
    decimal::lemma_number_of_padded(t.day as nat, 2);
    decimal::lemma_number_of_padded(t.hour as nat, 2);
    decimal::lemma_number_of_padded(t.minute as nat, 2);
    decimal::lemma_number_of_padded(t.second as nat, 2);
    let y = decimal::padded(t.year as nat, 4);
    let mo = decimal::padded(t.month as nat, 2);
    let d = decimal::padded(t.day as nat, 2);
    let h = decimal::padded(t.hour as nat, 2);
    let mi = decimal::padded(t.minute as nat, 2);
    let s = decimal::padded(t.second as nat, 2);
    assert(text =~= y + mo + d + h + mi + s);
    assert(text.subrange(0, 4) =~= y);
    assert(text.subrange(4, 6) =~= mo);
    assert(text.subrange(6, 8) =~= d);
    assert(text.subrange(8, 10) =~= h);
    assert(text.subrange(10, 12) =~= mi);
    assert(text.subrange(12, 14) =~= s);
    assert forall|i: int| 0 <= i < text.len() implies decimal::is_digit(#[trigger] text[i]) by {
        if i < 4 {
            assert(decimal::is_digit(y[i]));
        } else if i < 6 {
            assert(decimal::is_digit(mo[i - 4]));
        } else if i < 8 {
            assert(decimal::is_digit(d[i - 6]));
        } else if i < 10 {
            assert(decimal::is_digit(h[i - 8]));
        } else if i < 12 {
            assert(decimal::is_digit(mi[i - 10]));
        } else {
            assert(decimal::is_digit(s[i - 12]));
        }
    }
}

} // verus!
