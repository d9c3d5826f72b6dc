//! Calendar dates as day numbers of the proleptic Gregorian calendar.

use vstd::prelude::*;
use vstd::string::StringExecFns;

verus! {

/// Day number of 1 January of year 1, the first day of the calendar.
pub const FIRST_DAY: i32 = 1;

/// Day number of 31 December 9999, the last day of the calendar.
pub const LAST_DAY: i32 = 3_652_059;

/// Whether `day` is the number of a day of the calendar.
pub open spec fn in_calendar(day: int) -> bool {
    FIRST_DAY <= day <= LAST_DAY
}

/// The last year of the calendar.
pub const LAST_YEAR: i32 = 9_999;

/// Whether a year has a 29th of February.
pub open spec fn leap(year: int) -> bool {
    year % 4 == 0 && (year % 100 != 0 || year % 400 == 0)
}

/// The number of days of a month.
pub open spec fn month_length(year: int, month: int) -> int {
    if month == 2 {
        if leap(year) {
            29
        } else {
            28
        }
    } else if month == 4 || month == 6 || month == 9 || month == 11 {
        30
    } else {
        31
    }
}

/// The number of days of a year that lie before a month.
pub open spec fn days_before_month(year: int, month: int) -> int
    decreases month,
{
    if month <= 1 {
        0
    } else {
        days_before_month(year, month - 1) + month_length(year, month - 1)
    }
}

/// The number of days from 1 January of year 1 on that lie before a year.
pub open spec fn days_before_year(year: int) -> int {
    365 * (year - 1) + (year - 1) / 4 - (year - 1) / 100 + (year - 1) / 400
}

/// The day number of the civil date `year`-`month`-`day` in the Gregorian
/// calendar, or `None` where there is no such date.
pub open spec fn civil_day_number(year: int, month: int, day: int) -> Option<int> {
    if 1 <= month <= 12 && 1 <= day <= month_length(year, month) {
        Some(days_before_year(year) + days_before_month(year, month) + day)
    } else {
        None
    }
}

/// Calls `chrono::NaiveDate::from_ymd_opt` and, on the date it returns,
/// `chrono::Datelike::num_days_from_ce`. The contract claims that `chrono`
/// knows the dates of the Gregorian calendar and counts their days from
/// 1 January of year 1 as day 1.
#[verifier::external_body]
fn day_number_from_civil(year: i32, month: u32, day: u32) -> (days: Option<i32>)
    requires
        1 <= year <= LAST_YEAR,
    ensures
        match days {
            Some(days) => civil_day_number(year as int, month as int, day as int) == Some(
                days as int,
            ),
            None => civil_day_number(year as int, month as int, day as int).is_none(),
        },
{
    chrono::NaiveDate::from_ymd_opt(year, month, day).map(
        |date| chrono::Datelike::num_days_from_ce(&date),
    )
}

/// The day number of the date that `chrono` reads from `text` by the
/// format `format`, or `None` where it reads none.
pub uninterp spec fn parsed_day_number(text: Seq<char>, format: Seq<char>) -> Option<int>;

/// Calls `chrono::NaiveDate::parse_from_str` and, on the date it returns,
/// `chrono::Datelike::num_days_from_ce`. The contract only names the
/// outcome.
#[verifier::external_body]
fn day_number_from_text(text: &str, format: &str) -> (days: Option<i32>)
    ensures
        days.is_some() == parsed_day_number(text@, format@).is_some(),
        days.is_some() ==> parsed_day_number(text@, format@) == Some(days.unwrap() as int),
{
    chrono::NaiveDate::parse_from_str(text, format).ok().map(
        |date| chrono::Datelike::num_days_from_ce(&date),
    )
}

/// The format of a year, a month and a day, in that order, with
/// `separator` between them.
pub open spec fn date_format(separator: Seq<char>) -> Seq<char> {
    "%Y"@ + separator + "%m"@ + separator + "%d"@
}

/// Calls `chrono::NaiveDate::from_num_days_from_ce_opt`, which knows every
/// day of this calendar, and reads the year, month and day of the date. The
/// contract claims that these are the civil date with that day number.
#[verifier::external_body]
fn civil_from_day_number(days: i32) -> (civil: (i32, u32, u32))
    requires
        in_calendar(days as int),
    ensures
        civil_day_number(civil.0 as int, civil.1 as int, civil.2 as int) == Some(days as int),
        1 <= civil.0 <= LAST_YEAR,
{
    let date = chrono::NaiveDate::from_num_days_from_ce_opt(days).unwrap_or_default();
    (chrono::Datelike::year(&date), chrono::Datelike::month(&date), chrono::Datelike::day(&date))
}

/// The day number of a date that may be missing.
pub open spec fn day_number(date: Option<Datestamp>) -> Option<int> {
    match date {
        Some(date) => Some(date@),
        None => None,
    }
}

/// One day of the calendar.
///
/// The view of a date is its day number, which counts 1 January of year 1 as
/// day 1. Dates are ordered as their day numbers are.
#[derive(Clone, Copy, Debug, PartialEq, Eq, PartialOrd, Ord, Hash)]
pub struct Datestamp {
    days: i32,
}

impl View for Datestamp {
    type V = int;

    closed spec fn view(&self) -> int {
        self.days as int
    }
}

impl Datestamp {
    /// Every date is a day of the calendar.
    #[verifier::type_invariant]
    pub open spec fn in_range(self) -> bool {
        in_calendar(self@)
    }

    /// The date with day number `day`, for a day of the calendar.
    pub closed spec fn on(day: int) -> Datestamp {
        Datestamp { days: day as i32 }
    }

    /// A date is the date with its own day number, and the date with a day
    /// number of the calendar has that number.
    pub broadcast proof fn lemma_on_day(day: int)
        requires
            in_calendar(day),
        ensures
            (#[trigger] Datestamp::on(day))@ == day,
    {
    }

    /// Dates with the same day number are the same date.
    pub broadcast proof fn lemma_on_own_day(self)
        ensures
            #[trigger] Datestamp::on(self@) == self,
    {
    }

    /// The date with the given day number, where the calendar holds it.
    pub fn from_days(days: i32) -> (date: Option<Datestamp>)
        ensures
            date.is_some() == in_calendar(days as int),
            date.is_some() ==> date.unwrap()@ == days,
    {
        if FIRST_DAY <= days && days <= LAST_DAY {
            Some(Datestamp { days })
        } else {
            None
        }
    }

    /// The date of a year, a month and a day of that month.
    ///
    /// `None` where no such civil date exists or the calendar does not hold
    /// it.
    pub fn from_ymd(year: i32, month: u32, day: u32) -> (date: Option<Datestamp>)
        ensures
            date.is_some() == (1 <= year <= LAST_YEAR && civil_day_number(
                year as int,
                month as int,
                day as int,
            ).is_some() && in_calendar(
                civil_day_number(year as int, month as int, day as int).unwrap(),
            )),
            date.is_some() ==> Some(date.unwrap()@) == civil_day_number(
                year as int,
                month as int,
                day as int,
            ),
    {
        if year < 1 || year > LAST_YEAR {
            return None;
        }
        match day_number_from_civil(year, month, day) {
            Some(days) => Datestamp::from_days(days),
            None => None,
        }
    }

    /// The date written in `text` as a year, a month and a day, in that
    /// order, with the fifth character of the text between them.
    ///
    /// `None` where the text is shorter than that, holds no such date, or
    /// the calendar does not hold the date.
    pub fn parse(text: &str) -> (date: Option<Datestamp>)
        ensures
            date.is_some() == (text@.len() > 4 && parsed_day_number(
                text@,
                date_format(text@.subrange(4, 5)),
            ).is_some() && in_calendar(
                parsed_day_number(text@, date_format(text@.subrange(4, 5))).unwrap(),
            )),
            date.is_some() ==> Some(date.unwrap()@) == parsed_day_number(
                text@,
                date_format(text@.subrange(4, 5)),
            ),
    {
        if text.unicode_len() <= 4 {
            return None;
        }
        let separator = text.substring_char(4, 5);
        let format = String::from_str("%Y").concat(separator).concat("%m").concat(
            separator,
        ).concat("%d");
        match day_number_from_text(text, format.as_str()) {
            Some(days) => Datestamp::from_days(days),
            None => None,
        }
    }

    /// The day number of the date.
    pub fn days(&self) -> (days: i32)
        ensures
            days == self@,
            in_calendar(days as int),
    {
        proof {
            use_type_invariant(self);
        }
        self.days
    }

    /// Year, month and day of the month of the date: the civil date that
    /// [`Datestamp::from_ymd`] makes this date of.
    pub fn ymd(&self) -> (civil: (i32, u32, u32))
        ensures
            civil_day_number(civil.0 as int, civil.1 as int, civil.2 as int) == Some(self@),
            1 <= civil.0 <= LAST_YEAR,
    {
        proof {
            use_type_invariant(self);
        }
        civil_from_day_number(self.days)
    }

    /// The day after this one, unless this is the last day of the calendar.
    pub fn succ(&self) -> (next: Option<Datestamp>)
        ensures
            next.is_some() == (self@ < LAST_DAY),
            next.is_some() ==> next.unwrap()@ == self@ + 1,
    {
        proof {
            use_type_invariant(self);
        }
        if self.days < LAST_DAY {
            Some(Datestamp { days: self.days + 1 })
        } else {
            None
        }
    }

    /// The day before this one, unless this is the first day of the
    /// calendar.
    pub fn pred(&self) -> (previous: Option<Datestamp>)
        ensures
            previous.is_some() == (self@ > FIRST_DAY),
            previous.is_some() ==> previous.unwrap()@ == self@ - 1,
    {
        proof {
            use_type_invariant(self);
        }
        if self.days > FIRST_DAY {
            Some(Datestamp { days: self.days - 1 })
        } else {
            None
        }
    }

    /// Whether this date lies before `other`.
    pub fn is_before(&self, other: &Datestamp) -> (before: bool)
        ensures
            before == (self@ < other@),
    {
        self.days < other.days
    }
}

} // verus!
