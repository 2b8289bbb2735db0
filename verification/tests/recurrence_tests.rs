use household_ledger::date::Date;
use household_ledger::recurrence::{expand, Period, Recurrence, RecurrenceError};

fn date(day: u32, month: u32, year: i32) -> Date {
    Date::new(day, month, year).unwrap()
}

fn every(days: u32, months: u32, years: u32, end: Date) -> Option<Recurrence> {
    Some(Recurrence { end, period: Period { days, months, years } })
}

#[test]
fn without_recurrence_the_start_is_the_only_date() {
    assert_eq!(expand(date(1, 1, 2024), None, date(1, 5, 2024)), Ok(vec![date(1, 1, 2024)]));
    assert_eq!(expand(date(1, 1, 2025), None, date(1, 5, 2024)), Ok(vec![date(1, 1, 2025)]));
}

#[test]
fn monthly_from_january_to_april() {
    assert_eq!(
        expand(date(1, 1, 2024), every(0, 1, 0, date(1, 4, 2024)), date(1, 5, 2024)),
        Ok(vec![date(1, 1, 2024), date(1, 2, 2024), date(1, 3, 2024), date(1, 4, 2024)])
    );
}

#[test]
fn reference_date_caps_the_end() {
    assert_eq!(
        expand(date(1, 1, 2024), every(0, 1, 0, date(1, 4, 2024)), date(29, 2, 2024)),
        Ok(vec![date(1, 1, 2024), date(1, 2, 2024)])
    );
    assert_eq!(
        expand(date(1, 1, 2024), every(0, 1, 0, date(1, 4, 2024)), date(1, 3, 2024)),
        Ok(vec![date(1, 1, 2024), date(1, 2, 2024), date(1, 3, 2024)])
    );
}

#[test]
fn dates_grow_and_stay_within_the_bounds() {
    let start = date(30, 11, 2023);
    let end = date(15, 6, 2024);
    let reference = date(1, 5, 2024);
    let dates = expand(start, every(10, 0, 0, end), reference).unwrap();
    assert_eq!(dates[0], start);
    assert_eq!(dates.len(), 16);
    for pair in dates.windows(2) {
        assert!(pair[0] < pair[1]);
    }
    for d in dates.iter().skip(1) {
        assert!(*d <= end && *d <= reference);
    }
    assert_eq!(*dates.last().unwrap(), date(28, 4, 2024));
}

#[test]
fn start_after_the_end_stays_alone() {
    assert_eq!(
        expand(date(1, 5, 2024), every(0, 1, 0, date(1, 4, 2024)), date(1, 1, 2025)),
        Ok(vec![date(1, 5, 2024)])
    );
    assert_eq!(
        expand(date(1, 5, 2024), every(0, 0, 0, date(1, 4, 2024)), date(1, 1, 2025)),
        Ok(vec![date(1, 5, 2024)])
    );
}

#[test]
fn empty_step_never_ends() {
    assert_eq!(
        expand(date(1, 1, 2024), every(0, 0, 0, date(1, 4, 2024)), date(1, 1, 2025)),
        Err(RecurrenceError::Endless)
    );
    assert_eq!(
        expand(date(1, 4, 2024), every(0, 0, 0, date(1, 4, 2024)), date(1, 4, 2024)),
        Err(RecurrenceError::Endless)
    );
}

#[test]
fn step_must_keep_the_day_of_the_month() {
    assert_eq!(
        expand(date(31, 1, 2024), every(0, 1, 0, date(1, 1, 2025)), date(1, 1, 2025)),
        Err(RecurrenceError::InvalidDay)
    );
    assert_eq!(
        expand(date(31, 1, 2024), every(0, 1, 0, date(1, 1, 2024)), date(1, 1, 2025)),
        Err(RecurrenceError::InvalidDay)
    );
    assert_eq!(
        expand(date(29, 2, 2024), every(0, 0, 4, date(1, 1, 2033)), date(1, 1, 2040)),
        Ok(vec![date(29, 2, 2024), date(29, 2, 2028), date(29, 2, 2032)])
    );
    assert_eq!(
        expand(date(29, 2, 2024), every(0, 0, 1, date(1, 1, 2033)), date(1, 1, 2040)),
        Err(RecurrenceError::InvalidDay)
    );
}

#[test]
fn steps_past_the_last_year_end_the_list() {
    assert_eq!(
        expand(date(1, 1, 9998), every(0, 0, 1, date(31, 12, 9999)), date(31, 12, 9999)),
        Ok(vec![date(1, 1, 9998), date(1, 1, 9999)])
    );
    assert_eq!(
        expand(date(30, 12, 9999), every(1, 0, 0, date(31, 12, 9999)), date(31, 12, 9999)),
        Ok(vec![date(30, 12, 9999), date(31, 12, 9999)])
    );
    assert_eq!(
        expand(date(1, 1, 262141), every(0, 0, 1, date(31, 12, 262142)), date(31, 12, 262142)),
        Ok(vec![date(1, 1, 262141), date(1, 1, 262142)])
    );
    assert_eq!(
        expand(date(30, 12, 262142), every(1, 0, 0, date(31, 12, 262142)), date(31, 12, 262142)),
        Ok(vec![date(30, 12, 262142), date(31, 12, 262142)])
    );
    assert_eq!(
        expand(date(1, 1, 9999), every(0, 6, 0, date(1, 1, 10001)), date(31, 12, 262142)),
        Ok(vec![
            date(1, 1, 9999),
            date(1, 7, 9999),
            date(1, 1, 10000),
            date(1, 7, 10000),
            date(1, 1, 10001)
        ])
    );
    assert_eq!(
        expand(date(1, 1, 2024), every(99, 99, 9999, date(31, 12, 9999)), date(31, 12, 9999)),
        Ok(vec![date(1, 1, 2024)])
    );
}

#[test]
fn days_are_counted_after_months_and_years() {
    assert_eq!(
        expand(date(28, 1, 2023), every(3, 1, 0, date(1, 1, 2024)), date(1, 6, 2023)),
        Ok(vec![date(28, 1, 2023), date(3, 3, 2023), date(6, 4, 2023), date(9, 5, 2023)])
    );
}
