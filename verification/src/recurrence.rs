//! The dates on which a recurring invoice falls due.

use crate::date::{
    date_plus, lemma_date_plus, lemma_day_number_order, Date, DateError, DateView,
};
use vstd::prelude::*;

verus! {

/// The step from one occurrence to the next: so many days, months and years.
#[derive(Clone, Copy, Debug, PartialEq, Eq, Structural)]
pub struct Period {
    pub days: u32,
    pub months: u32,
    pub years: u32,
}

impl Period {
    /// The step leads nowhere.
    pub open spec fn is_zero(self) -> bool {
        self.days == 0 && self.months == 0 && self.years == 0
    }
}

/// Until when an invoice recurs, and how often.
#[derive(Clone, Copy, Debug)]
pub struct Recurrence {
    pub end: Date,
    pub period: Period,
}

/// What a [`Recurrence`] stands for.
pub struct RecurrenceView {
    pub end: DateView,
    pub period: Period,
}

impl View for Recurrence {
    type V = RecurrenceView;

    open spec fn view(&self) -> RecurrenceView {
        RecurrenceView { end: self.end@, period: self.period }
    }
}

/// Why the dates of a recurring invoice could not be listed.
#[derive(Clone, Copy, Debug, PartialEq, Eq, Structural)]
pub enum RecurrenceError {
    /// A step leads to a month that lacks the day of the month.
    InvalidDay,
    /// The step is empty and the first date is not after the last: the dates would
    /// never end.
    Endless,
}

/// The earlier of the two dates.
pub open spec fn earlier(a: DateView, b: DateView) -> DateView {
    if b.before(a) {
        b
    } else {
        a
    }
}

/// The dates after `current`, each one step after the one before it, as long as
/// they are not after `end`.
pub open spec fn later_dates(current: DateView, end: DateView, period: Period) -> Result<
    Seq<DateView>,
    RecurrenceError,
>
    decreases end.day_number() - current.day_number(),
    when current.is_valid() && end.is_valid() && !period.is_zero()
    via later_dates_end
{
    match date_plus(current, period.days as int, period.months as int, period.years as int) {
        Err(DateError::InvalidDay) => Err(RecurrenceError::InvalidDay),
        Err(DateError::OutOfRange) => Ok(Seq::empty()),
        Ok(next) => if end.before(next) {
            Ok(Seq::empty())
        } else {
            match later_dates(next, end, period) {
                Ok(rest) => Ok(seq![next] + rest),
                Err(e) => Err(e),
            }
        },
    }
}

#[via_fn]
proof fn later_dates_end(current: DateView, end: DateView, period: Period) {
    let step = date_plus(
        current,
        period.days as int,
        period.months as int,
        period.years as int,
    );
    if step is Ok {
        let next = step->Ok_0;
        lemma_date_plus(current, period.days as int, period.months as int, period.years as int);
        lemma_day_number_order(current, next);
        lemma_day_number_order(next, end);
    }
}

/// The dates of an invoice. Without a recurrence, its start alone. With one, the
/// start and then the dates that follow it step by step, as long as they are after
/// neither the end of the recurrence nor the reference date.
pub open spec fn occurrences(
    start: DateView,
    recurrence: Option<RecurrenceView>,
    reference: DateView,
) -> Result<Seq<DateView>, RecurrenceError> {
    match recurrence {
        None => Ok(seq![start]),
        Some(r) => {
            let end = earlier(r.end, reference);
            if r.period.is_zero() {
                if end.before(start) {
                    Ok(seq![start])
                } else {
                    Err(RecurrenceError::Endless)
                }
            } else {
                match later_dates(start, end, r.period) {
                    Ok(rest) => Ok(seq![start] + rest),
                    Err(e) => Err(e),
                }
            }
        },
    }
}

/// What each date of a list stands for.
pub open spec fn date_views(dates: Seq<Date>) -> Seq<DateView> {
    dates.map_values(|d: Date| d@)
}

/// The dates that follow `current` step by step are valid, later than `current`,
/// each later than the one before it, and none is after `end`.
pub proof fn lemma_later_dates(current: DateView, end: DateView, period: Period)
    requires
        current.is_valid(),
        end.is_valid(),
        !period.is_zero(),
        later_dates(current, end, period) is Ok,
    ensures
        ({
            let dates = later_dates(current, end, period)->Ok_0;
            &&& forall|i: int| 0 <= i < dates.len() ==> (#[trigger] dates[i]).is_valid()
            &&& forall|i: int| 0 <= i < dates.len() ==> current.before(#[trigger] dates[i])
            &&& forall|i: int| 0 <= i < dates.len() ==> !end.before(#[trigger] dates[i])
            &&& forall|i: int, j: int|
                0 <= i < j < dates.len() ==> (#[trigger] dates[i]).before(#[trigger] dates[j])
        }),
    decreases end.day_number() - current.day_number(),
{
    let step = date_plus(
        current,
        period.days as int,
        period.months as int,
        period.years as int,
    );
    if step is Ok {
        let next = step->Ok_0;
        lemma_date_plus(current, period.days as int, period.months as int, period.years as int);
        if !end.before(next) {
            lemma_day_number_order(current, next);
            lemma_day_number_order(next, end);
            lemma_later_dates(next, end, period);
            let rest = later_dates(next, end, period)->Ok_0;
            let dates = later_dates(current, end, period)->Ok_0;
            assert(dates == seq![next] + rest);
            assert forall|i: int| 0 <= i < dates.len() implies current.before(
                #[trigger] dates[i],
            ) by {
                if i > 0 {
                    assert(dates[i] == rest[i - 1]);
                    assert(next.before(rest[i - 1]));
                }
            }
            assert forall|i: int, j: int| 0 <= i < j < dates.len() implies (
            #[trigger] dates[i]).before(#[trigger] dates[j]) by {
                assert(dates[j] == rest[j - 1]);
                if i > 0 {
                    assert(dates[i] == rest[i - 1]);
                }
            }
        }
    }
}

/// The dates of an invoice begin with its start and grow strictly from one to the
/// next; every date is valid, and every date after the first is after neither the
/// end of the recurrence nor the reference date. So is the first, unless the
/// invoice starts after one of the two.
pub proof fn lemma_occurrences(
    start: DateView,
    recurrence: Option<RecurrenceView>,
    reference: DateView,
)
    requires
        start.is_valid(),
        reference.is_valid(),
        recurrence matches Some(r) ==> r.end.is_valid(),
        occurrences(start, recurrence, reference) is Ok,
    ensures
        ({
            let dates = occurrences(start, recurrence, reference)->Ok_0;
            &&& dates.len() >= 1
            &&& dates[0] == start
            &&& recurrence is None ==> dates.len() == 1
            &&& forall|i: int| 0 <= i < dates.len() ==> (#[trigger] dates[i]).is_valid()
            &&& forall|i: int, j: int|
                0 <= i < j < dates.len() ==> (#[trigger] dates[i]).before(#[trigger] dates[j])
            &&& forall|i: int|
                1 <= i < dates.len() ==> !recurrence->0.end.before(#[trigger] dates[i])
                    && !reference.before(dates[i])
            &&& recurrence is Some && !recurrence->0.end.before(start) && !reference.before(start)
                ==> forall|i: int|
                0 <= i < dates.len() ==> !recurrence->0.end.before(#[trigger] dates[i])
                    && !reference.before(dates[i])
        }),
{
    if let Some(r) = recurrence {
        let end = earlier(r.end, reference);
        if !r.period.is_zero() {
            lemma_later_dates(start, end, r.period);
            let rest = later_dates(start, end, r.period)->Ok_0;
            let dates = occurrences(start, recurrence, reference)->Ok_0;
            assert(dates == seq![start] + rest);
            assert forall|i: int, j: int| 0 <= i < j < dates.len() implies (
            #[trigger] dates[i]).before(#[trigger] dates[j]) by {
                assert(dates[j] == rest[j - 1]);
                if i > 0 {
                    assert(dates[i] == rest[i - 1]);
                }
            }
            assert forall|i: int| 1 <= i < dates.len() implies !r.end.before(#[trigger] dates[i])
                && !reference.before(dates[i]) by {
                assert(dates[i] == rest[i - 1]);
                assert(!end.before(rest[i - 1]));
            }
            assert forall|i: int| 0 <= i < dates.len() implies (#[trigger] dates[i]).is_valid() by {
                if i > 0 {
                    assert(dates[i] == rest[i - 1]);
                }
            }
        }
    }
}

proof fn lemma_expanded(
    dates: Seq<Date>,
    start: DateView,
    recurrence: Option<RecurrenceView>,
    reference: DateView,
)
    requires
        start.is_valid(),
        reference.is_valid(),
        recurrence matches Some(r) ==> r.end.is_valid(),
        occurrences(start, recurrence, reference) == Ok::<Seq<DateView>, RecurrenceError>(
            date_views(dates),
        ),
    ensures
        dates.len() >= 1,
        dates[0]@ == start,
        forall|i: int, j: int|
            0 <= i < j < dates.len() ==> (#[trigger] dates[i])@.before((#[trigger] dates[j])@),
        forall|i: int|
            1 <= i < dates.len() ==> !recurrence->0.end.before((#[trigger] dates[i])@)
                && !reference.before(dates[i]@),
{
    lemma_occurrences(start, recurrence, reference);
    let views = date_views(dates);
    assert(views[0] == dates[0]@);
    assert forall|i: int, j: int| 0 <= i < j < dates.len() implies (#[trigger] dates[i])@.before(
        (#[trigger] dates[j])@,
    ) by {
        assert(views[i].before(views[j]));
    }
    assert forall|i: int| 1 <= i < dates.len() implies !recurrence->0.end.before(
        (#[trigger] dates[i])@,
    ) && !reference.before(dates[i]@) by {
        assert(!reference.before(views[i]));
    }
}

/// The dates of an invoice that starts on `start`: see [`occurrences`]. The first of
/// them is `start`, each is later than the one before, and those after the first
/// are after neither the end of the recurrence nor the reference date.
#[verifier::loop_isolation(false)]
pub fn expand(start: Date, recurrence: Option<Recurrence>, reference: Date) -> (r: Result<
    Vec<Date>,
    RecurrenceError,
>)
    ensures
        match r {
            Ok(dates) => occurrences(
                start@,
                match recurrence {
                    Some(rec) => Some(rec@),
                    None => None,
                },
                reference@,
            ) == Ok::<Seq<DateView>, RecurrenceError>(date_views(dates@)),
            Err(e) => occurrences(
                start@,
                match recurrence {
                    Some(rec) => Some(rec@),
                    None => None,
                },
                reference@,
            ) == Err::<Seq<DateView>, RecurrenceError>(e),
        },
        r matches Ok(dates) ==> {
            &&& dates.len() >= 1
            &&& dates@[0]@ == start@
            &&& forall|i: int, j: int|
                0 <= i < j < dates.len() ==> (#[trigger] dates@[i])@.before((#[trigger] dates@[j])@)
            &&& forall|i: int|
                1 <= i < dates.len() ==> !recurrence->0.end@.before((#[trigger] dates@[i])@)
                    && !reference@.before(dates@[i]@)
        },
{
    let mut dates: Vec<Date> = Vec::new();
    dates.push(start);
    assert(date_views(dates@) =~= seq![start@]);
    proof {
        use_type_invariant(&start);
        use_type_invariant(&reference);
    }
    match recurrence {
        None => {
            proof {
                lemma_expanded(dates@, start@, None, reference@);
            }
            Ok(dates)
        },
        Some(rec) => {
            proof {
                use_type_invariant(&rec.end);
            }
            let end = if reference.is_before(&rec.end) {
                reference
            } else {
                rec.end
            };
            let period = rec.period;
            if period.days == 0 && period.months == 0 && period.years == 0 {
                if end.is_before(&start) {
                    proof {
                        lemma_expanded(dates@, start@, Some(rec@), reference@);
                    }
                    return Ok(dates);
                } else {
                    return Err(RecurrenceError::Endless);
                }
            }
            let ghost whole = later_dates(start@, end@, period);
            let mut current = start;
            loop
                invariant
                    current@.is_valid(),
                    end@.is_valid(),
                    !period.is_zero(),
                    dates@.len() >= 1,
                    whole == later_dates(start@, end@, period),
                    match later_dates(current@, end@, period) {
                        Ok(rest) => whole == Ok::<Seq<DateView>, RecurrenceError>(
                            date_views(dates@).drop_first() + rest,
                        ),
                        Err(e) => whole == Err::<Seq<DateView>, RecurrenceError>(e),
                    },
                    date_views(dates@)[0] == start@,
                decreases end@.day_number() - current@.day_number(),
            {
                let ghost before = date_views(dates@);
                match current.add(period.days, period.months, period.years) {
                    Err(DateError::InvalidDay) => {
                        return Err(RecurrenceError::InvalidDay);
                    },
                    Err(DateError::OutOfRange) => {
                        assert(before =~= seq![start@] + before.drop_first());
                        assert(before.drop_first() + Seq::<DateView>::empty()
                            =~= before.drop_first());
                        proof {
                            lemma_expanded(dates@, start@, Some(rec@), reference@);
                        }
                        return Ok(dates);
                    },
                    Ok(next) => {
                        if next.is_after(&end) {
                            assert(before =~= seq![start@] + before.drop_first());
                            assert(before.drop_first() + Seq::<DateView>::empty()
                                =~= before.drop_first());
                            proof {
                                lemma_expanded(dates@, start@, Some(rec@), reference@);
                            }
                            return Ok(dates);
                        }
                        proof {
                            lemma_date_plus(
                                current@,
                                period.days as int,
                                period.months as int,
                                period.years as int,
                            );
                            lemma_day_number_order(current@, next@);
                            lemma_day_number_order(next@, end@);
                        }
                        dates.push(next);
                        proof {
                            let now = date_views(dates@);
                            assert(now =~= before.push(next@));
                            if later_dates(next@, end@, period) is Ok {
                                let rest = later_dates(next@, end@, period)->Ok_0;
                                assert(now.drop_first() + rest =~= before.drop_first() + (
                                seq![next@] + rest));
                            }
                        }
                        current = next;
                    },
                }
            }
        },
    }
}

} // verus!
