//! Schedules: rules that pick days of the calendar.
//!
//! A schedule stands for a set of days, [`Schedule::occurs`]. The functions
//! of this module walk that set in ascending order without ever building it.

use crate::date::{day_number, in_calendar, Datestamp, FIRST_DAY, LAST_DAY};
use vstd::prelude::*;
use vstd::relations::*;
use vstd::seq_lib::lemma_sorted_unique;

verus! {

/// Whether `source` is a recurrence rule in the notation that the `cron`
/// crate reads.
pub uninterp spec fn cron_accepts(source: Seq<char>) -> bool;

/// The days on which the recurrence rule written as `source` fires: the
/// numbers of the days, in UTC, that hold at least one instant the rule
/// matches. Text that is no rule fires on no day.
pub uninterp spec fn cron_days(source: Seq<char>) -> Set<int>;

/// Parses `source` with the `FromStr` impl of `cron::Schedule` and tells
/// whether that succeeded. The contract only names the outcome.
#[verifier::external_body]
fn cron_parses(source: &str) -> (accepted: bool)
    ensures
        accepted == cron_accepts(source@),
{
    source.parse::<cron::Schedule>().is_ok()
}

/// Parses `source`, asks `cron::Schedule::after` for the first instant the
/// rule matches after the last second of the day with number `day`, and
/// returns the number of the day of that instant.
///
/// The contract claims that the instant found is the earliest match, so
/// that no day between has one, and that `None` means the rule never fires
/// again.
#[verifier::external_body]
fn cron_first_after(source: &str, day: i32) -> (first: Option<i32>)
    requires
        0 <= day <= LAST_DAY,
    ensures
        match first {
            Some(found) => day < found && cron_days(source@).contains(found as int) && forall|
                d: int,
            |
                day < d < found ==> !cron_days(source@).contains(d),
            None => forall|d: int| day < d ==> !cron_days(source@).contains(d),
        },
{
    let rule = source.parse::<cron::Schedule>().ok()?;
    let end = chrono::NaiveDate::from_num_days_from_ce_opt(day)?.and_hms_opt(23, 59, 59)?;
    rule.after(&end.and_utc()).next().map(
        |at| chrono::Datelike::num_days_from_ce(&at.date_naive()),
    )
}

/// A recurrence rule in cron notation, kept as the text it was written in.
#[derive(Debug, PartialEq, Eq)]
pub struct Cron {
    source: String,
}

impl View for Cron {
    type V = Seq<char>;

    closed spec fn view(&self) -> Seq<char> {
        self.source@
    }
}

impl Cron {
    /// The rule written as `source`, or `None` where that text is no rule.
    pub fn new(source: &str) -> (rule: Option<Cron>)
        ensures
            rule.is_some() == cron_accepts(source@),
            rule.is_some() ==> rule.unwrap()@ == source@,
    {
        if cron_parses(source) {
            Some(Cron { source: source.to_string() })
        } else {
            None
        }
    }

    /// The text of the rule.
    pub fn source(&self) -> (source: &str)
        ensures
            source@ == self@,
    {
        self.source.as_str()
    }

    /// The first day from `from` on that the rule fires on: the first day
    /// after the day before `from`.
    pub fn first_from(&self, from: Datestamp) -> (first: Option<Datestamp>)
        ensures
            match first {
                Some(day) => from@ <= day@ && in_calendar(day@) && cron_days(self@).contains(day@)
                    && forall|d: int| from@ <= d < day@ ==> !cron_days(self@).contains(d),
                None => forall|d: int| from@ <= d <= LAST_DAY ==> !cron_days(self@).contains(d),
            },
    {
        match cron_first_after(self.source.as_str(), from.days() - 1) {
            Some(day) => Datestamp::from_days(day),
            None => None,
        }
    }
}

/// A rule that picks days of the calendar.
#[derive(Debug)]
pub enum Schedule {
    /// The days on which the recurrence rule fires.
    Cron(Cron),
    /// One exact day.
    Date(Datestamp),
    /// Every day that the given schedule does not pick.
    TimeFunctionNot(Box<Schedule>),
    /// The days that either of the two schedules picks.
    TimeFunctionOr(Box<Schedule>, Box<Schedule>),
    /// The days that both schedules pick.
    TimeFunctionAnd(Box<Schedule>, Box<Schedule>),
    /// Samples the first schedule at the ticks of the second: for every tick,
    /// the latest day of the first schedule that is not after the tick.
    TimeFunctionBy(Box<Schedule>, Box<Schedule>),
}

impl Schedule {
    /// The number of rules the schedule is built from.
    pub open spec fn size(&self) -> nat
        decreases self,
    {
        match self {
            Schedule::Cron(_) => 1,
            Schedule::Date(_) => 1,
            Schedule::TimeFunctionNot(inner) => 1 + inner.size(),
            Schedule::TimeFunctionOr(left, right) => 1 + left.size() + right.size(),
            Schedule::TimeFunctionAnd(left, right) => 1 + left.size() + right.size(),
            Schedule::TimeFunctionBy(sampled, ticks) => 1 + sampled.size() + ticks.size(),
        }
    }

    /// Whether the schedule picks the day with number `day`.
    ///
    /// Sampling picks a day of the sampled schedule when the first tick on or
    /// after that day comes before the next sampled day: the day is then the
    /// latest sampled day that is not after the tick.
    pub open spec fn occurs(&self, day: int) -> bool
        decreases self.size(), 0int, 0int,
    {
        in_calendar(day) && match self {
            Schedule::Cron(rule) => cron_days(rule@).contains(day),
            Schedule::Date(date) => date@ == day,
            Schedule::TimeFunctionNot(inner) => !inner.occurs(day),
            Schedule::TimeFunctionOr(left, right) => left.occurs(day) || right.occurs(day),
            Schedule::TimeFunctionAnd(left, right) => left.occurs(day) && right.occurs(day),
            Schedule::TimeFunctionBy(sampled, ticks) => sampled.occurs(day) && ticks.next(day)
                < sampled.next(day + 1),
        }
    }

    /// The earliest day from `from` on that the schedule picks; the day after
    /// the last day of the calendar where it picks none.
    pub open spec fn next(&self, from: int) -> int
        decreases self.size(), 1int, LAST_DAY + 1 - from,
    {
        if from > LAST_DAY {
            LAST_DAY + 1
        } else if self.occurs(from) {
            from
        } else {
            self.next(from + 1)
        }
    }

    /// The earliest day from `from` on that the schedule picks, or `None`
    /// where it picks none.
    pub open spec fn earliest(&self, from: int) -> Option<int> {
        if self.next(from) <= LAST_DAY {
            Some(self.next(from))
        } else {
            None
        }
    }

    /// Whether the schedule picks no day from `from` up to, and without,
    /// `until`.
    pub open spec fn idle(&self, from: int, until: int) -> bool {
        forall|day: int| from <= day < until ==> !self.occurs(day)
    }

    /// The days from `from` on that the schedule picks.
    pub open spec fn upcoming_days(&self, from: int) -> Set<int> {
        Set::new(|day: int| from <= day && self.occurs(day))
    }

    /// What [`Schedule::occurs`] says of each kind of schedule, one level
    /// down.
    pub proof fn lemma_occurs_unfolds(&self, day: int)
        ensures
            self.occurs(day) == (in_calendar(day) && match self {
                Schedule::Cron(rule) => cron_days(rule@).contains(day),
                Schedule::Date(date) => date@ == day,
                Schedule::TimeFunctionNot(inner) => !inner.occurs(day),
                Schedule::TimeFunctionOr(left, right) => left.occurs(day) || right.occurs(day),
                Schedule::TimeFunctionAnd(left, right) => left.occurs(day) && right.occurs(day),
                Schedule::TimeFunctionBy(sampled, ticks) => sampled.occurs(day) && ticks.next(day)
                    < sampled.next(day + 1),
            }),
    {
    }

    /// [`Schedule::next`] is the earliest picked day: no day before it, from
    /// `from` on, is picked, and it is picked itself unless the calendar ran
    /// out.
    pub proof fn lemma_next_is_earliest(&self, from: int)
        requires
            from <= LAST_DAY + 1,
        ensures
            from <= self.next(from) <= LAST_DAY + 1,
            self.idle(from, self.next(from)),
            self.next(from) <= LAST_DAY ==> self.occurs(self.next(from)),
        decreases LAST_DAY + 1 - from,
    {
        if from <= LAST_DAY && !self.occurs(from) {
            self.lemma_next_is_earliest(from + 1);
        }
    }

    /// A picked day with no picked day between `from` and it is
    /// [`Schedule::next`] of `from`.
    pub proof fn lemma_earliest_is_next(&self, from: int, day: int)
        requires
            from <= day <= LAST_DAY + 1,
            self.idle(from, day),
            day <= LAST_DAY ==> self.occurs(day),
        ensures
            self.next(from) == day,
    {
        self.lemma_next_is_earliest(from);
        if self.next(from) < day {
            assert(self.occurs(self.next(from)));
        }
    }

    /// What sampling means: it picks a day of the sampled schedule exactly
    /// when some tick on or after that day has no later sampled day before
    /// or on it, so that the day is the latest sampled day as of that tick.
    pub proof fn lemma_sampling(sampled: Schedule, ticks: Schedule, day: int)
        ensures
            Schedule::TimeFunctionBy(Box::new(sampled), Box::new(ticks)).occurs(day) <==> (
            sampled.occurs(day) && exists|tick: int|
                day <= tick && #[trigger] ticks.occurs(tick) && sampled.idle(day + 1, tick + 1)),
    {
        let by = Schedule::TimeFunctionBy(Box::new(sampled), Box::new(ticks));
        by.lemma_occurs_unfolds(day);
        if sampled.occurs(day) {
            ticks.lemma_next_is_earliest(day);
            sampled.lemma_next_is_earliest(day + 1);
            if by.occurs(day) {
                let tick = ticks.next(day);
                assert(ticks.occurs(tick) && sampled.idle(day + 1, tick + 1));
            }
            if exists|tick: int|
                day <= tick && #[trigger] ticks.occurs(tick) && sampled.idle(day + 1, tick + 1) {
                let tick = choose|tick: int|
                    day <= tick && #[trigger] ticks.occurs(tick) && sampled.idle(
                        day + 1,
                        tick + 1,
                    );
                if sampled.next(day + 1) <= tick {
                    assert(sampled.occurs(sampled.next(day + 1)));
                }
            }
        }
    }

    /// The days a schedule picks and the days its complement picks share no
    /// day, and together they hold every day of the calendar from `from` on.
    pub proof fn lemma_complement_partitions(inner: Schedule, from: int, day: int)
        requires
            from <= day,
            in_calendar(day),
        ensures
            Schedule::TimeFunctionNot(Box::new(inner)).upcoming_days(from).contains(day)
                != inner.upcoming_days(from).contains(day),
    {
        Schedule::TimeFunctionNot(Box::new(inner)).lemma_occurs_unfolds(day);
    }

    /// Every day that the intersection of two schedules picks is picked by
    /// each of them.
    pub proof fn lemma_intersection_within(left: Schedule, right: Schedule, from: int)
        ensures
            Schedule::TimeFunctionAnd(Box::new(left), Box::new(right)).upcoming_days(
                from,
            ).subset_of(left.upcoming_days(from)),
            Schedule::TimeFunctionAnd(Box::new(left), Box::new(right)).upcoming_days(
                from,
            ).subset_of(right.upcoming_days(from)),
    {
        let both = Schedule::TimeFunctionAnd(Box::new(left), Box::new(right));
        assert forall|day: int| both.upcoming_days(from).contains(day) implies left.upcoming_days(
            from,
        ).contains(day) && right.upcoming_days(from).contains(day) by {
            both.lemma_occurs_unfolds(day);
        }
    }

    /// Every day that either of two schedules picks is picked by their
    /// union.
    pub proof fn lemma_union_covers(left: Schedule, right: Schedule, from: int)
        ensures
            left.upcoming_days(from).subset_of(
                Schedule::TimeFunctionOr(Box::new(left), Box::new(right)).upcoming_days(from),
            ),
            right.upcoming_days(from).subset_of(
                Schedule::TimeFunctionOr(Box::new(left), Box::new(right)).upcoming_days(from),
            ),
    {
        let either = Schedule::TimeFunctionOr(Box::new(left), Box::new(right));
        assert forall|day: int|
            left.upcoming_days(from).contains(day) || right.upcoming_days(from).contains(
                day,
            ) implies either.upcoming_days(from).contains(day) by {
            either.lemma_occurs_unfolds(day);
        }
    }

    /// Walking a schedule from `from` yields each picked day once, in
    /// ascending order: the walk's next day is a picked day on or after
    /// `from`, no picked day lies between, and the day that follows it is
    /// later still.
    pub proof fn lemma_walk_ascends(&self, from: int)
        requires
            from <= LAST_DAY + 1,
        ensures
            match self.earliest(from) {
                Some(day) => from <= day && self.upcoming_days(from).contains(day)
                    && self.idle(from, day) && match self.earliest(day + 1) {
                    Some(following) => day < following,
                    None => true,
                },
                None => self.upcoming_days(from) =~= Set::empty(),
            },
    {
        self.lemma_next_is_earliest(from);
        if self.next(from) <= LAST_DAY {
            self.lemma_next_is_earliest(self.next(from) + 1);
        }
    }

    /// The earliest day from `from` on that the schedule picks, or `None`
    /// where it picks none.
    pub fn first_from(&self, from: Datestamp) -> (first: Option<Datestamp>)
        ensures
            day_number(first) == self.earliest(from@),
        decreases self.size(), 0int,
    {
        proof {
            use_type_invariant(&from);
        }
        let first = match self {
            Schedule::Cron(rule) => rule.first_from(from),
            Schedule::Date(date) => {
                proof {
                    use_type_invariant(date);
                }
                if date.days() < from.days() {
                    None
                } else {
                    Some(*date)
                }
            },
            Schedule::TimeFunctionNot(inner) => Schedule::first_outside(inner, from),
            Schedule::TimeFunctionOr(left, right) => {
                let first_left = left.first_from(from);
                let first_right = right.first_from(from);
                proof {
                    left.lemma_next_is_earliest(from@);
                    right.lemma_next_is_earliest(from@);
                }
                match (first_left, first_right) {
                    (Some(a), Some(b)) => if b.days() < a.days() {
                        Some(b)
                    } else {
                        Some(a)
                    },
                    (Some(a), None) => Some(a),
                    (None, other) => other,
                }
            },
            Schedule::TimeFunctionAnd(left, right) => Schedule::first_shared(left, right, from),
            Schedule::TimeFunctionBy(sampled, ticks) => Schedule::first_sampled(
                sampled,
                ticks,
                from,
            ),
        };
        proof {
            let until = match first {
                Some(day) => day@,
                None => LAST_DAY + 1,
            };
            assert forall|d: int| from@ <= d < until implies !self.occurs(d) by {
                self.lemma_occurs_unfolds(d);
            }
            if let Some(day) = first {
                self.lemma_occurs_unfolds(day@);
            }
            self.lemma_earliest_is_next(from@, until);
        }
        first
    }

    /// The earliest day from `from` on that `inner` does not pick.
    fn first_outside(inner: &Schedule, from: Datestamp) -> (first: Option<Datestamp>)
        ensures
            match first {
                Some(day) => from@ <= day@ && in_calendar(day@) && !inner.occurs(day@)
                    && forall|d: int| from@ <= d < day@ ==> inner.occurs(d),
                None => forall|d: int| from@ <= d <= LAST_DAY ==> inner.occurs(d),
            },
        decreases inner.size(), 1int,
    {
        let mut day = from;
        loop
            invariant
                from@ <= day@,
                forall|d: int| from@ <= d < day@ ==> inner.occurs(d),
            decreases LAST_DAY - day@,
        {
            proof {
                use_type_invariant(&day);
            }
            let hit = inner.first_from(day);
            proof {
                inner.lemma_next_is_earliest(day@);
            }
            let taken = match hit {
                Some(hit) => hit.days() == day.days(),
                None => false,
            };
            if !taken {
                return Some(day);
            }
            match day.succ() {
                Some(next) => {
                    day = next;
                },
                None => {
                    return None;
                },
            }
        }
    }

    /// The earliest day from `from` on that both schedules pick.
    fn first_shared(left: &Schedule, right: &Schedule, from: Datestamp) -> (first: Option<
        Datestamp,
    >)
        ensures
            match first {
                Some(day) => from@ <= day@ && left.occurs(day@) && right.occurs(day@) && forall|
                    d: int,
                |
                    from@ <= d < day@ ==> !(left.occurs(d) && right.occurs(d)),
                None => forall|d: int| from@ <= d ==> !(left.occurs(d) && right.occurs(d)),
            },
        decreases left.size() + right.size(), 1int,
    {
        let mut day = from;
        loop
            invariant
                from@ <= day@,
                forall|d: int| from@ <= d < day@ ==> !(left.occurs(d) && right.occurs(d)),
            decreases LAST_DAY - day@,
        {
            proof {
                use_type_invariant(&day);
                left.lemma_next_is_earliest(day@);
            }
            let a = match left.first_from(day) {
                Some(a) => a,
                None => {
                    return None;
                },
            };
            proof {
                right.lemma_next_is_earliest(a@);
            }
            let b = match right.first_from(a) {
                Some(b) => b,
                None => {
                    return None;
                },
            };
            if a.days() == b.days() {
                return Some(a);
            }
            day = b;
        }
    }

    /// The earliest day from `from` on that sampling `sampled` at the ticks
    /// of `ticks` picks.
    fn first_sampled(sampled: &Schedule, ticks: &Schedule, from: Datestamp) -> (first: Option<
        Datestamp,
    >)
        ensures
            match first {
                Some(day) => from@ <= day@ && sampled.occurs(day@) && ticks.next(day@)
                    < sampled.next(day@ + 1) && forall|d: int|
                    from@ <= d < day@ ==> !(sampled.occurs(d) && ticks.next(d) < sampled.next(
                        d + 1,
                    )),
                None => forall|d: int|
                    from@ <= d ==> !(sampled.occurs(d) && ticks.next(d) < sampled.next(d + 1)),
            },
        decreases sampled.size() + ticks.size(), 1int,
    {
        let mut day = from;
        loop
            invariant
                from@ <= day@,
                forall|d: int|
                    from@ <= d < day@ ==> !(sampled.occurs(d) && ticks.next(d) < sampled.next(
                        d + 1,
                    )),
            decreases LAST_DAY - day@,
        {
            proof {
                use_type_invariant(&day);
                sampled.lemma_next_is_earliest(day@);
            }
            let candidate = match sampled.first_from(day) {
                Some(candidate) => candidate,
                None => {
                    return None;
                },
            };
            proof {
                use_type_invariant(&candidate);
                ticks.lemma_next_is_earliest(candidate@);
                sampled.lemma_next_is_earliest(candidate@ + 1);
            }
            let tick = match ticks.first_from(candidate) {
                Some(tick) => tick,
                None => {
                    proof {
                        assert forall|d: int| candidate@ <= d implies !(sampled.occurs(d)
                            && ticks.next(d) < sampled.next(d + 1)) by {
                            if sampled.occurs(d) {
                                ticks.lemma_next_is_earliest(d);
                                sampled.lemma_next_is_earliest(d + 1);
                                if ticks.next(d) <= LAST_DAY {
                                    assert(ticks.occurs(ticks.next(d)));
                                }
                            }
                        }
                    }
                    return None;
                },
            };
            let later = match candidate.succ() {
                Some(next) => sampled.first_from(next),
                None => None,
            };
            let overtaken = match later {
                Some(next) => next.days() <= tick.days(),
                None => false,
            };
            if !overtaken {
                return Some(candidate);
            }
            day = later.unwrap();
        }
    }

    /// The days from `from` up to, and without, `until` that the schedule
    /// picks, in ascending order.
    pub open spec fn days_between(&self, from: int, until: int) -> Seq<Datestamp>
        decreases until - from,
    {
        if from < until && from <= self.next(from) < until {
            seq![Datestamp::on(self.next(from))] + self.days_between(self.next(from) + 1, until)
        } else {
            Seq::empty()
        }
    }

    /// [`Schedule::days_between`] holds picked days of the range only, in
    /// strictly ascending order, and leaves out none.
    pub proof fn lemma_days_between(&self, from: int, until: int)
        requires
            FIRST_DAY <= from,
            until <= LAST_DAY + 1,
        ensures
            forall|i: int|
                0 <= i < self.days_between(from, until).len() ==> from <= (
                #[trigger] self.days_between(from, until)[i])@ < until && self.occurs(
                    self.days_between(from, until)[i]@,
                ),
            forall|i: int, j: int|
                0 <= i < j < self.days_between(from, until).len() ==> (
                #[trigger] self.days_between(from, until)[i])@ < (#[trigger] self.days_between(
                    from,
                    until,
                )[j])@,
            forall|day: int|
                from <= day < until && self.occurs(day) ==> exists|i: int|
                    0 <= i < self.days_between(from, until).len() && (
                    #[trigger] self.days_between(from, until)[i])@ == day,
        decreases until - from,
    {
        broadcast use Datestamp::lemma_on_day;

        if from < until {
            self.lemma_next_is_earliest(from);
            let first = self.next(from);
            if first < until {
                let rest = self.days_between(first + 1, until);
                let all = self.days_between(from, until);
                self.lemma_days_between(first + 1, until);
                assert(all[0]@ == first);
                assert forall|i: int| 1 <= i < all.len() implies all[i] == rest[i - 1] by {}
                assert forall|day: int| from <= day < until && self.occurs(day) implies exists|
                    i: int,
                |
                    0 <= i < all.len() && (#[trigger] all[i])@ == day by {
                    if day == first {
                        assert(all[0]@ == day);
                    } else {
                        let k = choose|k: int| 0 <= k < rest.len() && (#[trigger] rest[k])@ == day;
                        assert(all[k + 1]@ == day);
                    }
                }
            }
        }
    }

    /// The picked days from `from` on, to be asked for one at a time.
    pub fn upcoming(&self, from: Datestamp) -> (upcoming: Upcoming<'_>)
        ensures
            upcoming.schedule() == self,
            upcoming.position() == from@,
    {
        Upcoming { schedule: self, cursor: Some(from) }
    }

    /// Every day from `from` up to, and without, `until` that the schedule
    /// picks, in ascending order.
    pub fn between(&self, from: Datestamp, until: Datestamp) -> (days: Vec<Datestamp>)
        ensures
            days@ == self.days_between(from@, until@),
    {
        proof {
            use_type_invariant(&from);
        }
        let end: i32 = until.days();
        let mut days: Vec<Datestamp> = Vec::new();
        let mut upcoming = self.upcoming(from);
        loop
            invariant
                upcoming.schedule() == self,
                end == until@ <= LAST_DAY,
                upcoming.position() <= LAST_DAY + 1,
                days@ + self.days_between(upcoming.position(), until@) == self.days_between(
                    from@,
                    until@,
                ),
            decreases LAST_DAY + 1 - upcoming.position(),
        {
            let ghost position = upcoming.position();
            proof {
                self.lemma_next_is_earliest(position);
            }
            match upcoming.next() {
                Some(day) => {
                    if day.days() >= end {
                        assert(self.days_between(position, until@) == Seq::<Datestamp>::empty());
                        return days;
                    }
                    proof {
                        day.lemma_on_own_day();
                        assert(days@.push(day) + self.days_between(day@ + 1, until@) == days@
                            + self.days_between(position, until@));
                    }
                    days.push(day);
                },
                None => {
                    assert(self.days_between(position, until@) =~= Seq::<Datestamp>::empty());
                    return days;
                },
            }
        }
    }
}

/// A place in the ascending walk over the days that a schedule picks.
pub struct Upcoming<'a> {
    schedule: &'a Schedule,
    cursor: Option<Datestamp>,
}

impl<'a> Upcoming<'a> {
    /// The schedule that is walked.
    pub closed spec fn schedule(&self) -> &Schedule {
        self.schedule
    }

    /// The day from which the walk goes on; the day after the last day of
    /// the calendar once the walk has ended.
    pub closed spec fn position(&self) -> int {
        match self.cursor {
            Some(day) => day@,
            None => LAST_DAY + 1,
        }
    }

    /// The days that are still to come.
    pub open spec fn remaining(&self) -> Set<int> {
        self.schedule().upcoming_days(self.position())
    }

    /// The next day of the walk: the earliest picked day that is still to
    /// come. `None` once no picked day is left.
    pub fn next(&mut self) -> (day: Option<Datestamp>)
        ensures
            day_number(day) == old(self).schedule().earliest(old(self).position()),
            final(self).schedule() == old(self).schedule(),
            final(self).position() == match day {
                Some(day) => day@ + 1,
                None => LAST_DAY + 1,
            },
            day.is_some() ==> old(self).position() <= day.unwrap()@ <= LAST_DAY,
    {
        let from = match self.cursor {
            Some(from) => from,
            None => {
                return None;
            },
        };
        proof {
            use_type_invariant(&from);
            self.schedule.lemma_next_is_earliest(from@);
        }
        let day = self.schedule.first_from(from);
        self.cursor = match day {
            Some(day) => day.succ(),
            None => None,
        };
        proof {
            if let Some(found) = day {
                assert(self.schedule.occurs(found@));
            }
        }
        day
    }
}

/// One firing: a day, and the place of the schedule that picked it among
/// the schedules that are merged.
pub type Firing = (Datestamp, usize);

/// Whether `first` is `second` or comes before it: firings are ordered by
/// their day, and those of one day by the place of their schedule.
pub open spec fn firing_leq(first: Firing, second: Firing) -> bool {
    first.0@ < second.0@ || (first.0@ == second.0@ && first.1 <= second.1)
}

/// The order of firings, [`firing_leq`], as a relation.
pub open spec fn firing_order() -> spec_fn(Firing, Firing) -> bool {
    |first: Firing, second: Firing| firing_leq(first, second)
}

/// The firings of the schedule at place `index` from `from` up to, and
/// without, `until`.
pub open spec fn stream_of(schedule: Schedule, index: usize, from: int, until: int) -> Seq<
    Firing,
> {
    schedule.days_between(from, until).map_values(|day: Datestamp| (day, index))
}

/// The firings of each of `schedules` in the range.
pub open spec fn streams_of(schedules: Seq<Schedule>, from: int, until: int) -> Seq<Seq<Firing>> {
    Seq::new(schedules.len(), |i: int| stream_of(schedules[i], i as usize, from, until))
}

/// All firings of `schedules` from `from` up to, and without, `until`, in
/// order: by day, and those of one day by the place of their schedule.
pub open spec fn agenda(schedules: Seq<Schedule>, from: int, until: int) -> Seq<Firing> {
    streams_of(schedules, from, until).flatten().sort_by(firing_order())
}

/// The schedules that `schedules` refer to.
pub open spec fn referred(schedules: Seq<&Schedule>) -> Seq<Schedule> {
    schedules.map_values(|schedule: &Schedule| *schedule)
}

/// The firings that `streams` hold, one stream after another.
pub open spec fn pooled(streams: Seq<Vec<Firing>>) -> Seq<Firing> {
    streams.map_values(|stream: Vec<Firing>| stream@).flatten()
}

/// Firings are in a total order.
pub proof fn lemma_firing_order_total()
    ensures
        total_ordering(firing_order()),
{
    let order = firing_order();
    assert forall|x: Firing, y: Firing| #[trigger] order(x, y) && #[trigger] order(y, x) implies x
        == y by {
        x.0.lemma_on_own_day();
        y.0.lemma_on_own_day();
    }
    assert(reflexive(order));
    assert(antisymmetric(order));
    assert(transitive(order));
    assert(strongly_connected(order));
}

/// Whatever several sequences hold when laid end to end, one of them holds.
pub proof fn lemma_pooled_from<A>(parts: Seq<Seq<A>>, item: A)
    requires
        parts.flatten().contains(item),
    ensures
        exists|i: int| 0 <= i < parts.len() && (#[trigger] parts[i]).contains(item),
    decreases parts.len(),
{
    if parts.len() > 0 {
        let whole = parts.flatten();
        let at = choose|at: int| 0 <= at < whole.len() && whole[at] == item;
        if at < parts.first().len() {
            assert(parts.first()[at] == item);
            assert(parts[0].contains(item));
        } else {
            let rest = parts.drop_first();
            assert(rest.flatten()[at - parts.first().len()] == item);
            lemma_pooled_from(rest, item);
            let i = choose|i: int| 0 <= i < rest.len() && (#[trigger] rest[i]).contains(item);
            assert(parts[i + 1].contains(item));
        }
    }
}

/// Every firing of the agenda is a day of the range that the schedule at
/// its place picks.
pub proof fn lemma_agenda_holds(schedules: Seq<Schedule>, from: int, until: int, place: int)
    requires
        FIRST_DAY <= from,
        until <= LAST_DAY + 1,
        schedules.len() <= usize::MAX,
        0 <= place < agenda(schedules, from, until).len(),
    ensures
        agenda(schedules, from, until)[place].1 < schedules.len(),
        from <= agenda(schedules, from, until)[place].0@ < until,
        schedules[agenda(schedules, from, until)[place].1 as int].occurs(
            agenda(schedules, from, until)[place].0@,
        ),
{
    let streams = streams_of(schedules, from, until);
    let firing = agenda(schedules, from, until)[place];
    lemma_firing_order_total();
    streams.flatten().lemma_sort_by_ensures(firing_order());
    assert(agenda(schedules, from, until).contains(firing));
    assert(streams.flatten().contains(firing));
    lemma_pooled_from(streams, firing);
    let i = choose|i: int| 0 <= i < streams.len() && (#[trigger] streams[i]).contains(firing);
    let stream = streams[i];
    let at = choose|at: int| 0 <= at < stream.len() && stream[at] == firing;
    schedules[i].lemma_days_between(from, until);
    assert(schedules[i].days_between(from, until)[at] == firing.0);
    assert(firing.1 == i as usize);
}

/// What `kmerge_by` of `itertools` yields for the streams, with
/// [`comes_before`] as its order.
///
/// The contract claims what the documentation of `kmerge_by` promises of
/// streams that are each in order: the merged firings are in order, and
/// they are the firings of the streams, each as often as the streams hold
/// it.
#[verifier::external_body]
fn merge_streams(streams: Vec<Vec<Firing>>) -> (merged: Vec<Firing>)
    requires
        forall|i: int|
            0 <= i < streams@.len() ==> sorted_by((#[trigger] streams@[i])@, firing_order()),
    ensures
        sorted_by(merged@, firing_order()),
        merged@.to_multiset() == pooled(streams@).to_multiset(),
{
    itertools::kmerge_by(streams, |first: &Firing, second: &Firing| comes_before(first, second))
        .collect()
}

/// Whether `first` comes before `second`.
pub fn comes_before(first: &Firing, second: &Firing) -> (before: bool)
    ensures
        before == (firing_leq(*first, *second) && !firing_leq(*second, *first)),
{
    first.0.days() < second.0.days() || (first.0.days() == second.0.days() && first.1 < second.1)
}

/// All firings of `schedules` from `from` up to, and without, `until`, in
/// order: by day, and those of one day in the order of the schedules.
pub fn event_queue(schedules: &Vec<&Schedule>, from: Datestamp, until: Datestamp) -> (queue: Vec<
    Firing,
>)
    ensures
        queue@ == agenda(referred(schedules@), from@, until@),
{
    proof {
        use_type_invariant(&from);
        use_type_invariant(&until);
    }
    let mut streams: Vec<Vec<Firing>> = Vec::new();
    let mut index: usize = 0;
    while index < schedules.len()
        invariant
            index <= schedules@.len(),
            streams@.len() == index,
            FIRST_DAY <= from@,
            until@ <= LAST_DAY,
            forall|i: int|
                0 <= i < index ==> (#[trigger] streams@[i])@ == stream_of(
                    *schedules@[i],
                    i as usize,
                    from@,
                    until@,
                ),
        decreases schedules@.len() - index,
    {
        let days = schedules[index].between(from, until);
        let mut stream: Vec<Firing> = Vec::new();
        let mut place: usize = 0;
        while place < days.len()
            invariant
                place <= days@.len(),
                stream@ == days@.take(place as int).map_values(|day: Datestamp| (day, index)),
            decreases days@.len() - place,
        {
            stream.push((days[place], index));
            place += 1;
            proof {
                assert(stream@ =~= days@.take(place as int).map_values(
                    |day: Datestamp| (day, index),
                ));
            }
        }
        proof {
            assert(days@.take(place as int) =~= days@);
        }
        streams.push(stream);
        index += 1;
    }
    proof {
        assert forall|i: int| 0 <= i < streams@.len() implies sorted_by(
            (#[trigger] streams@[i])@,
            firing_order(),
        ) by {
            schedules@[i].lemma_days_between(from@, until@);
        }
        assert(streams@.map_values(|stream: Vec<Firing>| stream@) =~= streams_of(
            referred(schedules@),
            from@,
            until@,
        ));
    }
    let merged = merge_streams(streams);
    proof {
        let pool = streams_of(referred(schedules@), from@, until@).flatten();
        lemma_firing_order_total();
        pool.lemma_sort_by_ensures(firing_order());
        lemma_sorted_unique(merged@, pool.sort_by(firing_order()), firing_order());
    }
    merged
}

} // verus!
