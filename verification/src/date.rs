//! Calendar dates of the proleptic Gregorian calendar, from the year 0 to the last
//! year that `chrono::NaiveDate` holds.

use crate::text::{decimal_text, push_decimal};
use chrono::{Datelike, Days, NaiveDate};
use std::cmp::Ordering;
use vstd::prelude::*;

verus! {

/// The last year a [`Date`] can hold: the last that a `chrono::NaiveDate` holds.
pub const MAX_YEAR: i32 = 262142;

/// Every fourth year is a leap year, but of the hundreds only every fourth.
pub open spec fn is_leap_year(year: int) -> bool {
    year % 4 == 0 && (year % 100 != 0 || year % 400 == 0)
}

/// The number of days of a year.
pub open spec fn days_in_year(year: int) -> int {
    if is_leap_year(year) {
        366
    } else {
        365
    }
}

/// The number of days of a month of a year.
pub open spec fn days_in_month(year: int, month: int) -> int {
    if month == 2 {
        if is_leap_year(year) {
            29
        } else {
            28
        }
    } else if month == 4 || month == 6 || month == 9 || month == 11 {
        30
    } else {
        31
    }
}

/// Days in the years `0 .. year`.
pub open spec fn days_before_year(year: int) -> int
    decreases year,
{
    if year <= 0 {
        0
    } else {
        days_before_year(year - 1) + days_in_year(year - 1)
    }
}

/// Days in the months `1 .. month` of `year`.
pub open spec fn days_before_month(year: int, month: int) -> int
    decreases month,
{
    if month <= 1 {
        0
    } else {
        days_before_month(year, month - 1) + days_in_month(year, month - 1)
    }
}

/// A year, a month and a day as mathematical integers: what a [`Date`] stands for.
pub struct DateView {
    pub year: int,
    pub month: int,
    pub day: int,
}

impl DateView {
    /// The day exists in the calendar, in a year that is not negative.
    pub open spec fn is_calendar_date(self) -> bool {
        &&& 0 <= self.year
        &&& 1 <= self.month <= 12
        &&& 1 <= self.day <= days_in_month(self.year, self.month)
    }

    /// The day exists and its year is at most [`MAX_YEAR`].
    pub open spec fn is_valid(self) -> bool {
        self.is_calendar_date() && self.year <= MAX_YEAR
    }

    /// The day's position in the calendar: 1 for the first of January of year 0,
    /// and one more for each day after it.
    pub open spec fn day_number(self) -> int {
        days_before_year(self.year) + days_before_month(self.year, self.month) + self.day
    }

    /// Calendar order: by year, then month, then day.
    pub open spec fn before(self, other: DateView) -> bool {
        ||| self.year < other.year
        ||| self.year == other.year && self.month < other.month
        ||| self.year == other.year && self.month == other.month && self.day < other.day
    }
}

/// The last day that a [`Date`] can hold.
pub open spec fn last_date() -> DateView {
    DateView { year: MAX_YEAR as int, month: 12, day: 31 }
}

/// The calendar date with the given day number.
pub open spec fn date_on_day(number: int) -> DateView {
    choose|d: DateView| d.is_calendar_date() && d.day_number() == number
}

proof fn lemma_months_fit_in_year(year: int, month: int)
    requires
        1 <= month <= 12,
    ensures
        0 <= days_before_month(year, month),
        days_before_month(year, month) + days_in_month(year, month) <= days_in_year(year),
{
    reveal_with_fuel(days_before_month, 13);
}

proof fn lemma_later_month_starts_later(year: int, earlier: int, later: int)
    requires
        1 <= earlier < later <= 12,
    ensures
        days_before_month(year, earlier) + days_in_month(year, earlier) <= days_before_month(
            year,
            later,
        ),
{
    reveal_with_fuel(days_before_month, 13);
}

proof fn lemma_later_year_starts_later(earlier: int, later: int)
    requires
        0 <= earlier < later,
    ensures
        days_before_year(earlier) + days_in_year(earlier) <= days_before_year(later),
    decreases later,
{
    if earlier + 1 < later {
        lemma_later_year_starts_later(earlier, later - 1);
    }
}

/// The day number grows with the calendar order: of two days of the calendar, the one
/// that comes first has the smaller number.
pub proof fn lemma_day_number_grows(a: DateView, b: DateView)
    requires
        a.is_calendar_date(),
        b.is_calendar_date(),
        a.before(b),
    ensures
        a.day_number() < b.day_number(),
{
    lemma_months_fit_in_year(a.year, a.month);
    lemma_months_fit_in_year(b.year, b.month);
    if a.year < b.year {
        lemma_later_year_starts_later(a.year, b.year);
    } else if a.month < b.month {
        lemma_later_month_starts_later(a.year, a.month, b.month);
    }
}

/// Calendar order and the order of day numbers are the same order, and no two days of
/// the calendar share a number.
pub proof fn lemma_day_number_order(a: DateView, b: DateView)
    requires
        a.is_calendar_date(),
        b.is_calendar_date(),
    ensures
        a.before(b) <==> a.day_number() < b.day_number(),
        a == b <==> a.day_number() == b.day_number(),
{
    if a.before(b) {
        lemma_day_number_grows(a, b);
    } else if b.before(a) {
        lemma_day_number_grows(b, a);
    } else {
        assert(a == b);
    }
}

/// A day of the calendar is the one that [`date_on_day`] names for its number.
pub proof fn lemma_date_on_day(d: DateView)
    requires
        d.is_calendar_date(),
    ensures
        date_on_day(d.day_number()) == d,
{
    let chosen = date_on_day(d.day_number());
    assert(chosen.is_calendar_date() && chosen.day_number() == d.day_number());
    lemma_day_number_order(chosen, d);
}

/// The day after a day of the calendar.
pub open spec fn next_day(d: DateView) -> DateView {
    if d.day < days_in_month(d.year, d.month) {
        DateView { year: d.year, month: d.month, day: d.day + 1 }
    } else if d.month < 12 {
        DateView { year: d.year, month: d.month + 1, day: 1 }
    } else {
        DateView { year: d.year + 1, month: 1, day: 1 }
    }
}

proof fn lemma_next_day(d: DateView)
    requires
        d.is_calendar_date(),
    ensures
        next_day(d).is_calendar_date(),
        next_day(d).day_number() == d.day_number() + 1,
{
    reveal_with_fuel(days_before_month, 13);
}

/// Every number from 1 on is the number of a day of the calendar.
pub proof fn lemma_day_exists(number: int)
    requires
        1 <= number,
    ensures
        date_on_day(number).is_calendar_date(),
        date_on_day(number).day_number() == number,
    decreases number,
{
    if number == 1 {
        let first = DateView { year: 0, month: 1, day: 1 };
        assert(first.is_calendar_date() && first.day_number() == 1) by {
            reveal_with_fuel(days_before_month, 2);
        }
    } else {
        lemma_day_exists(number - 1);
        let before = date_on_day(number - 1);
        lemma_next_day(before);
        assert(next_day(before).is_calendar_date() && next_day(before).day_number() == number);
    }
}

/// Why a date could not be moved forward.
#[derive(Clone, Copy, Debug, PartialEq, Eq, Structural)]
pub enum DateError {
    /// The day of the month does not exist in the month that the step leads to.
    InvalidDay,
    /// The step leads past the last day of [`MAX_YEAR`].
    OutOfRange,
}

/// A day of the calendar, in a year from 0 to [`MAX_YEAR`].
#[derive(Clone, Copy, Debug, Eq, Ord)]
pub struct Date {
    year: i32,
    month: u32,
    day: u32,
}

impl View for Date {
    type V = DateView;

    closed spec fn view(&self) -> DateView {
        DateView { year: self.year as int, month: self.month as int, day: self.day as int }
    }
}

impl PartialEq for Date {
    fn eq(&self, other: &Date) -> (r: bool) {
        self.year == other.year && self.month == other.month && self.day == other.day
    }
}

impl vstd::std_specs::cmp::PartialEqSpecImpl for Date {
    open spec fn obeys_eq_spec() -> bool {
        true
    }

    open spec fn eq_spec(&self, other: &Date) -> bool {
        self@ == other@
    }
}

impl PartialOrd for Date {
    fn partial_cmp(&self, other: &Date) -> (r: Option<Ordering>) {
        if self.is_before(other) {
            Some(Ordering::Less)
        } else if other.is_before(self) {
            Some(Ordering::Greater)
        } else {
            Some(Ordering::Equal)
        }
    }
}

impl vstd::std_specs::cmp::PartialOrdSpecImpl for Date {
    open spec fn obeys_partial_cmp_spec() -> bool {
        true
    }

    open spec fn partial_cmp_spec(&self, other: &Date) -> Option<Ordering> {
        if self@.before(other@) {
            Some(Ordering::Less)
        } else if other@.before(self@) {
            Some(Ordering::Greater)
        } else {
            Some(Ordering::Equal)
        }
    }
}

/// How a date is written: day, month and year in base ten, with a full stop between
/// them and no padding.
pub open spec fn date_text(date: DateView) -> Seq<char> {
    decimal_text(date.day) + seq!['.'] + decimal_text(date.month) + seq!['.'] + decimal_text(
        date.year,
    )
}

/// Where a step of `months` and `years` leads before any days are counted: the same
/// day of the month, the months carried over into years.
pub open spec fn shifted_month(from: DateView, months: int, years: int) -> DateView {
    let month_sum = from.month - 1 + months;
    DateView { year: from.year + years + month_sum / 12, month: month_sum % 12 + 1, day: from.day }
}

/// The date `days`, `months` and `years` after `from`: first the months and years,
/// keeping the day of the month, which must exist in the month arrived at; then the
/// days. Nothing lies after the last day of [`MAX_YEAR`].
pub open spec fn date_plus(from: DateView, days: int, months: int, years: int) -> Result<
    DateView,
    DateError,
> {
    let base = shifted_month(from, months, years);
    if !base.is_calendar_date() {
        Err(DateError::InvalidDay)
    } else if base.year > MAX_YEAR || base.day_number() + days > last_date().day_number() {
        Err(DateError::OutOfRange)
    } else {
        Ok(date_on_day(base.day_number() + days))
    }
}

/// Where [`date_plus`] gives a date, that date is valid and lies `days` days after
/// the one that the months and years lead to. It is later than the starting date
/// unless the step is empty, and then it is the starting date.
pub proof fn lemma_date_plus(from: DateView, days: int, months: int, years: int)
    requires
        from.is_valid(),
        0 <= days,
        0 <= months,
        0 <= years,
        date_plus(from, days, months, years) is Ok,
    ensures
        ({
            let to = date_plus(from, days, months, years)->Ok_0;
            &&& to.is_valid()
            &&& to.day_number() == shifted_month(from, months, years).day_number() + days
            &&& days + months + years > 0 ==> from.before(to)
            &&& days + months + years == 0 ==> to == from
        }),
{
    let base = shifted_month(from, months, years);
    let to = date_plus(from, days, months, years)->Ok_0;
    lemma_months_fit_in_year(base.year, base.month);
    let first = DateView { year: 0, month: 1, day: 1 };
    assert(first.is_calendar_date() && first.day_number() == 1) by {
        reveal_with_fuel(days_before_month, 2);
    }
    lemma_day_number_order(first, base);
    lemma_day_exists(base.day_number() + days);
    lemma_day_number_order(to, last_date());
    lemma_day_number_order(from, base);
    lemma_day_number_order(from, to);
    lemma_day_number_order(base, to);
    if months + years > 0 {
        assert(from.before(base));
    } else {
        assert(base == from);
    }
}

/// `chrono::NaiveDate::from_ymd_opt(..)` followed by `checked_add_days(..)`, read back
/// through `Datelike::{year, month, day}`.
///
/// Not proved: that chrono hands back the calendar day whose number is `days` more
/// than that of the day given, and that it declines only where that day lies after
/// the last day of [`MAX_YEAR`].
#[verifier::external_body]
fn chrono_add_days(year: i32, month: u32, day: u32, days: u64) -> (r: Option<(i32, u32, u32)>)
    requires
        (DateView { year: year as int, month: month as int, day: day as int }).is_valid(),
    ensures
        match r {
            Some((y, m, d)) => {
                let to = DateView { year: y as int, month: m as int, day: d as int };
                let from = DateView { year: year as int, month: month as int, day: day as int };
                to.is_calendar_date() && to.day_number() == from.day_number() + days
            },
            None => {
                let from = DateView { year: year as int, month: month as int, day: day as int };
                from.day_number() + days > last_date().day_number()
            },
        },
{
    let date = NaiveDate::from_ymd_opt(year, month, day)?.checked_add_days(Days::new(days))?;
    Some((date.year(), date.month(), date.day()))
}

/// Whether the year is a leap year.
fn leap_year(year: u64) -> (r: bool)
    ensures
        r == is_leap_year(year as int),
{
    year % 4 == 0 && (year % 100 != 0 || year % 400 == 0)
}

/// The number of days of the month.
fn month_length(year: u64, month: u32) -> (r: u32)
    ensures
        r == days_in_month(year as int, month as int),
{
    if month == 2 {
        if leap_year(year) {
            29
        } else {
            28
        }
    } else if month == 4 || month == 6 || month == 9 || month == 11 {
        30
    } else {
        31
    }
}

impl Date {
    /// Every date is a day of the calendar in a year from 0 to [`MAX_YEAR`].
    #[verifier::type_invariant]
    pub open spec fn inv(self) -> bool {
        self@.is_valid()
    }

    /// The date of the day `day` of the month `month` of the year `year`, if the
    /// calendar has such a day in the years 0 to [`MAX_YEAR`].
    pub fn new(day: u32, month: u32, year: i32) -> (r: Option<Date>)
        ensures
            match r {
                Some(date) => date@ == (DateView {
                    year: year as int,
                    month: month as int,
                    day: day as int,
                }) && date@.is_valid(),
                None => !(DateView {
                    year: year as int,
                    month: month as int,
                    day: day as int,
                }).is_valid(),
            },
    {
        if 0 <= year && year <= MAX_YEAR && 1 <= month && month <= 12 && 1 <= day && day
            <= month_length(year as u64, month) {
            Some(Date { year, month, day })
        } else {
            None
        }
    }

    /// The day of the month, from 1.
    pub fn day(&self) -> (r: u32)
        ensures
            r == self@.day,
            self@.is_valid(),
    {
        proof {
            use_type_invariant(self);
        }
        self.day
    }

    /// The month of the year, from 1.
    pub fn month(&self) -> (r: u32)
        ensures
            r == self@.month,
            self@.is_valid(),
    {
        proof {
            use_type_invariant(self);
        }
        self.month
    }

    /// The year.
    pub fn year(&self) -> (r: i32)
        ensures
            r == self@.year,
            self@.is_valid(),
    {
        proof {
            use_type_invariant(self);
        }
        self.year
    }

    /// The date as text, as [`date_text`] writes it.
    pub fn to_string(&self) -> (r: String)
        ensures
            r@ == date_text(self@),
    {
        proof {
            use_type_invariant(self);
        }
        let mut out = String::new();
        push_decimal(&mut out, self.day as u128);
        out.push('.');
        push_decimal(&mut out, self.month as u128);
        out.push('.');
        push_decimal(&mut out, self.year as u128);
        out
    }

    /// Whether this date comes before `other` in the calendar.
    pub fn is_before(&self, other: &Date) -> (r: bool)
        ensures
            r == self@.before(other@),
    {
        self.year < other.year || (self.year == other.year && (self.month < other.month || (
        self.month == other.month && self.day < other.day)))
    }

    /// Whether this date comes after `other` in the calendar.
    pub fn is_after(&self, other: &Date) -> (r: bool)
        ensures
            r == other@.before(self@),
    {
        other.is_before(self)
    }

    /// The date `days`, `months` and `years` later. The months and years are applied
    /// first and keep the day of the month: twelve months make a year, and a day that
    /// the month arrived at does not have is an error. The days are counted from there.
    /// Without days, the result is the same day of the month arrived at, wherever the
    /// calendar has it.
    pub fn add(&self, days: u32, months: u32, years: u32) -> (r: Result<Date, DateError>)
        ensures
            self@.is_valid(),
            match r {
                Ok(date) => date_plus(self@, days as int, months as int, years as int) == Ok::<
                    DateView,
                    DateError,
                >(date@) && date@.is_valid() && date@.day_number() == shifted_month(
                    self@,
                    months as int,
                    years as int,
                ).day_number() + days,
                Err(e) => date_plus(self@, days as int, months as int, years as int) == Err::<
                    DateView,
                    DateError,
                >(e),
            },
            days == 0 && shifted_month(self@, months as int, years as int).is_valid() ==> r is Ok
                && r->Ok_0@ == shifted_month(self@, months as int, years as int),
    {
        proof {
            use_type_invariant(self);
            if date_plus(self@, days as int, months as int, years as int) is Ok {
                lemma_date_plus(self@, days as int, months as int, years as int);
            }
            if shifted_month(self@, months as int, years as int).is_valid() {
                lemma_date_on_day(shifted_month(self@, months as int, years as int));
                lemma_day_number_order(
                    shifted_month(self@, months as int, years as int),
                    last_date(),
                );
            }
        }
        let month_sum: u64 = (self.month - 1) as u64 + months as u64;
        let long_year: u64 = self.year as u64 + years as u64 + month_sum / 12;
        let month: u32 = (month_sum % 12) as u32 + 1;
        if self.day > month_length(long_year, month) {
            return Err(DateError::InvalidDay);
        }
        if long_year > MAX_YEAR as u64 {
            return Err(DateError::OutOfRange);
        }
        let year: i32 = long_year as i32;
        let ghost base = shifted_month(self@, months as int, years as int);
        let ghost last = last_date();
        match chrono_add_days(year, month, self.day, days as u64) {
            Some((y, m, d)) => {
                let ghost to = DateView { year: y as int, month: m as int, day: d as int };
                proof {
                    lemma_day_number_order(to, last);
                    lemma_date_on_day(to);
                }
                if y > MAX_YEAR {
                    Err(DateError::OutOfRange)
                } else {
                    proof {
                        lemma_day_number_order(base, to);
                    }
                    Ok(Date { year: y, month: m, day: d })
                }
            },
            None => Err(DateError::OutOfRange),
        }
    }
}

} // verus!
