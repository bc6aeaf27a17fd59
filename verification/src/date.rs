use chrono::format::ParseErrorKind as K;
use vstd::prelude::*;

verus! {

/// The first day that a `chrono::NaiveDate` can hold (January 1, 262144 BCE),
/// counted as `num_days_from_ce` counts, with January 1 of year 1 as day 1.
pub const MIN_DAYS_FROM_CE: i32 = -95_746_129;

/// The last day that a `chrono::NaiveDate` can hold (December 31, 262142 CE).
pub const MAX_DAYS_FROM_CE: i32 = 95_745_399;

pub open spec fn in_date_range(days: int) -> bool {
    MIN_DAYS_FROM_CE <= days <= MAX_DAYS_FROM_CE
}

/// Why a text is not a date, as chrono classifies it (`chrono::format::ParseErrorKind`).
#[derive(Debug, Clone, Copy, PartialEq, Eq, Structural)]
pub enum DateErrorKind {
    OutOfRange,
    Impossible,
    NotEnough,
    Invalid,
    TooShort,
    TooLong,
    BadFormat,
}

/// What `chrono::NaiveDate::parse_from_str(s, "%Y%m%d")` gives for `s`: the
/// day's number counted from January 1 of year 1 (day 1), or why it failed.
pub uninterp spec fn naive_date_parse_ymd(s: Seq<char>) -> Result<int, DateErrorKind>;

/// The first and last years that a `chrono::NaiveDate` can hold.
pub const MIN_YEAR: i32 = -262_143;

pub const MAX_YEAR: i32 = 262_142;

/// Whether `year` is a leap year of the proleptic Gregorian calendar (year 0
/// is one).
pub open spec fn is_leap_year(year: int) -> bool {
    year % 4 == 0 && (year % 100 != 0 || year % 400 == 0)
}

/// The number of days of `month` (1 to 12) in `year`.
pub open spec fn days_in_month(year: int, month: int) -> int {
    if month == 2 {
        if is_leap_year(year) { 29 } else { 28 }
    } else if month == 4 || month == 6 || month == 9 || month == 11 {
        30
    } else {
        31
    }
}

/// The number of days of `year` before the first of `month` (1 to 12).
pub open spec fn days_before_month(year: int, month: int) -> int {
    let common: int = if month == 1 {
        0
    } else if month == 2 {
        31
    } else if month == 3 {
        59
    } else if month == 4 {
        90
    } else if month == 5 {
        120
    } else if month == 6 {
        151
    } else if month == 7 {
        181
    } else if month == 8 {
        212
    } else if month == 9 {
        243
    } else if month == 10 {
        273
    } else if month == 11 {
        304
    } else {
        334
    };
    if month > 2 && is_leap_year(year) { common + 1 } else { common }
}

/// The number of days from January 1 of year 1 to January 1 of `year`
/// (negative before year 1).
pub open spec fn days_before_year(year: int) -> int {
    let p = year - 1;
    365 * p + p / 4 - p / 100 + p / 400
}

/// The days of the calendar follow each other without gap: a year starts
/// on day 0 of it, each month starts where the one before ends, the next year
/// starts after the last day of December, year 1 starts the count, and every
/// 400 years hold 146097 days (97 of those years being leap years).
pub proof fn lemma_calendar_is_consecutive(year: int, month: int)
    requires
        1 <= month <= 12,
    ensures
        days_before_month(year, 1) == 0,
        month < 12 ==> days_before_month(year, month + 1) == days_before_month(year, month)
            + days_in_month(year, month),
        days_before_year(year + 1) == days_before_year(year) + days_before_month(year, 12)
            + days_in_month(year, 12),
        days_before_year(1) == 0,
        days_before_year(year + 400) == days_before_year(year) + 146097,
        days_in_month(year, 2) == 29 || days_in_month(year, 2) == 28,
{
    let p = year - 1;
    assert((p + 1) / 4 == p / 4 + (if (p + 1) % 4 == 0 { 1int } else { 0int }));
    assert((p + 1) / 100 == p / 100 + (if (p + 1) % 100 == 0 { 1int } else { 0int }));
    assert((p + 1) / 400 == p / 400 + (if (p + 1) % 400 == 0 { 1int } else { 0int }));
    assert((p + 400) / 4 == p / 4 + 100);
    assert((p + 400) / 100 == p / 100 + 4);
    assert((p + 400) / 400 == p / 400 + 1);
    assert(year % 100 == 0 ==> year % 4 == 0);
    assert(year % 400 == 0 ==> year % 100 == 0);
}

/// Whether `year`, `month` and `day` name a day that chrono's calendar holds.
pub open spec fn is_calendar_date(year: i32, month: u32, day: u32) -> bool {
    &&& MIN_YEAR <= year <= MAX_YEAR
    &&& 1 <= month <= 12
    &&& 1 <= day <= days_in_month(year as int, month as int)
}

/// The number of the day `year-month-day`, with January 1 of year 1 as day 1.
pub open spec fn day_number_of(year: i32, month: u32, day: u32) -> int {
    days_before_year(year as int) + days_before_month(year as int, month as int) + day
}

/// What the `Display` impl of `chrono::NaiveDate` writes for the day with
/// this number.
pub uninterp spec fn naive_date_display(days: int) -> Seq<char>;

/// A day of the proleptic Gregorian calendar, held as its number counted from
/// January 1 of year 1 (day 1), within the range of days that chrono handles.
#[derive(Debug, Clone, Copy, PartialEq, Eq, Structural)]
pub struct Date {
    days_from_ce: i32,
}

/// A day of the week.
#[derive(Debug, Clone, Copy, PartialEq, Eq, Structural)]
pub enum Weekday {
    Mon,
    Tue,
    Wed,
    Thu,
    Fri,
    Sat,
    Sun,
}

/// The weekday of the day with number `days`: day 1 (January 1 of year 1 in
/// the proleptic Gregorian calendar) was a Monday.
pub open spec fn weekday_of(days: int) -> Weekday {
    let w = (days - 1) % 7;
    if w == 0 {
        Weekday::Mon
    } else if w == 1 {
        Weekday::Tue
    } else if w == 2 {
        Weekday::Wed
    } else if w == 3 {
        Weekday::Thu
    } else if w == 4 {
        Weekday::Fri
    } else if w == 5 {
        Weekday::Sat
    } else {
        Weekday::Sun
    }
}

/// Day 1 (1 January of year 1) is a Monday, and each day is followed by the
/// next day of the week, Sunday by Monday.
pub proof fn lemma_weekday_succession(days: int)
    ensures
        weekday_of(1) == Weekday::Mon,
        weekday_of(days) == Weekday::Mon ==> weekday_of(days + 1) == Weekday::Tue,
        weekday_of(days) == Weekday::Tue ==> weekday_of(days + 1) == Weekday::Wed,
        weekday_of(days) == Weekday::Wed ==> weekday_of(days + 1) == Weekday::Thu,
        weekday_of(days) == Weekday::Thu ==> weekday_of(days + 1) == Weekday::Fri,
        weekday_of(days) == Weekday::Fri ==> weekday_of(days + 1) == Weekday::Sat,
        weekday_of(days) == Weekday::Sat ==> weekday_of(days + 1) == Weekday::Sun,
        weekday_of(days) == Weekday::Sun ==> weekday_of(days + 1) == Weekday::Mon,
        weekday_of(days + 7) == weekday_of(days),
{
    assert((days + 7 - 1) % 7 == (days - 1) % 7);
    assert((days - 1) % 7 == 6 ==> (days + 1 - 1) % 7 == 0);
    assert((days - 1) % 7 < 6 ==> (days + 1 - 1) % 7 == (days - 1) % 7 + 1);
}

impl View for Date {
    type V = int;

    closed spec fn view(&self) -> int {
        self.days_from_ce as int
    }
}

/// Calls `chrono::NaiveDate::parse_from_str` with the format `%Y%m%d`: the
/// contract claims that the day number (or the error kind) it converts the
/// result to is the one `naive_date_parse_ymd` names, and that every date
/// chrono returns lies between `NaiveDate::MIN` and `NaiveDate::MAX`.
#[verifier::external_body]
fn chrono_parse_ymd(s: &str) -> (r: Result<Date, DateErrorKind>)
    ensures
        match r {
            Ok(d) => naive_date_parse_ymd(s@) == Ok::<int, DateErrorKind>(d@) && in_date_range(d@),
            Err(k) => naive_date_parse_ymd(s@) == Err::<int, DateErrorKind>(k),
        },
{
    match chrono::NaiveDate::parse_from_str(s, "%Y%m%d") {
        Ok(d) => Ok(Date { days_from_ce: chrono::Datelike::num_days_from_ce(&d) }),
        Err(e) => Err(match e.kind() {
            K::OutOfRange => DateErrorKind::OutOfRange,
            K::Impossible => DateErrorKind::Impossible,
            K::NotEnough => DateErrorKind::NotEnough,
            K::Invalid => DateErrorKind::Invalid,
            K::TooShort => DateErrorKind::TooShort,
            K::TooLong => DateErrorKind::TooLong,
            _ => DateErrorKind::BadFormat,
        }),
    }
}

/// Calls `chrono::NaiveDate::from_ymd_opt`: the contract claims that it gives
/// a date exactly where the year lies in chrono's range and the month and day
/// exist in the proleptic Gregorian calendar, and that the day number of that
/// date (`num_days_from_ce`) counts the days before its year and month, plus
/// its day, from January 1 of year 1 as day 1.
#[verifier::external_body]
fn chrono_from_ymd(year: i32, month: u32, day: u32) -> (r: Option<Date>)
    ensures
        match r {
            Some(d) => is_calendar_date(year, month, day) && d@ == day_number_of(year, month, day)
                && in_date_range(d@),
            None => !is_calendar_date(year, month, day),
        },
{
    match chrono::NaiveDate::from_ymd_opt(year, month, day) {
        Some(d) => Some(Date { days_from_ce: chrono::Datelike::num_days_from_ce(&d) }),
        None => None,
    }
}

/// Calls the `Display` impl of `chrono::NaiveDate` on the day with number
/// `days` (made by `NaiveDate::from_num_days_from_ce_opt`, which succeeds on
/// that range): the contract claims only that the text is the one
/// `naive_date_display` names.
#[verifier::external_body]
fn chrono_date_text(days: i32) -> (r: String)
    requires
        in_date_range(days as int),
    ensures
        r@ == naive_date_display(days as int),
{
    match chrono::NaiveDate::from_num_days_from_ce_opt(days) {
        Some(d) => d.to_string(),
        None => String::new(),
    }
}

impl Date {
    /// The date with this year, month and day, where chrono's calendar has it.
    pub fn from_ymd_opt(year: i32, month: u32, day: u32) -> (r: Option<Date>)
        ensures
            match r {
                Some(d) => is_calendar_date(year, month, day) && d@ == day_number_of(year, month, day),
                None => !is_calendar_date(year, month, day),
            },
    {
        chrono_from_ymd(year, month, day)
    }

    /// The number of the day, with January 1 of year 1 as day 1.
    pub fn days_from_ce(&self) -> (r: i32)
        ensures
            r == self@,
            in_date_range(r as int),
    {
        proof {
            use_type_invariant(self);
        }
        self.days_from_ce
    }

    /// The day `days` days after this one (before it, for a negative count).
    pub fn plus_days(&self, days: i64) -> (r: Date)
        requires
            in_date_range(self@ + days),
        ensures
            r@ == self@ + days,
    {
        Date { days_from_ce: (self.days_from_ce as i64 + days) as i32 }
    }

    /// The day of the week.
    pub fn weekday(&self) -> (r: Weekday)
        ensures
            r == weekday_of(self@),
    {
        proof {
            use_type_invariant(self);
        }
        // Shifting by a multiple of 7 makes the count non-negative.
        let a: i64 = self.days_from_ce as i64 - 1 + 7 * 13_678_019;
        let w = a % 7;
        assert(w == (self@ - 1) % 7);
        if w == 0 {
            Weekday::Mon
        } else if w == 1 {
            Weekday::Tue
        } else if w == 2 {
            Weekday::Wed
        } else if w == 3 {
            Weekday::Thu
        } else if w == 4 {
            Weekday::Fri
        } else if w == 5 {
            Weekday::Sat
        } else {
            Weekday::Sun
        }
    }

    /// The text of the date as chrono displays it (`YYYY-MM-DD`).
    pub fn to_string(&self) -> (r: String)
        ensures
            r@ == naive_date_display(self@),
    {
        proof {
            use_type_invariant(self);
        }
        chrono_date_text(self.days_from_ce)
    }

    #[verifier::type_invariant]
    spec fn within_range(self) -> bool {
        in_date_range(self.days_from_ce as int)
    }
}

/// Reads a GTFS date, written `YYYYMMDD`.
pub fn parse_date(s: &str) -> (r: Result<Date, DateErrorKind>)
    ensures
        match r {
            Ok(d) => naive_date_parse_ymd(s@) == Ok::<int, DateErrorKind>(d@),
            Err(k) => naive_date_parse_ymd(s@) == Err::<int, DateErrorKind>(k),
        },
{
    chrono_parse_ymd(s)
}

/// Reads an optional GTFS date: an absent field is no date, a present one
/// must be a date.
pub fn parse_option_date(s: Option<&str>) -> (r: Result<Option<Date>, DateErrorKind>)
    ensures
        match s {
            None => r == Ok::<Option<Date>, DateErrorKind>(None),
            Some(t) => match naive_date_parse_ymd(t@) {
                Ok(days) => r is Ok && r->Ok_0 is Some && r->Ok_0->Some_0@ == days,
                Err(k) => r == Err::<Option<Date>, DateErrorKind>(k),
            },
        },
{
    match s {
        None => Ok(None),
        Some(t) => match parse_date(t) {
            Ok(d) => Ok(Some(d)),
            Err(k) => Err(k),
        },
    }
}

} // verus!
