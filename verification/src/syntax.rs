//! What the notation for events means: how the words of a source text turn
//! into schedules, operations and statements once they have been told
//! apart.

use crate::account::{interned, place_of, with_name, Interner, Symbols};
use crate::builtin::same;
use crate::date::{date_format, in_calendar, parsed_day_number, Datestamp};
use crate::ledger::ID;
use crate::money::Money;
use crate::schedule::{Cron, Schedule};
use crate::statement::{Operation, Statements};
use vstd::prelude::*;
use vstd::string::StringExecFns;

verus! {

/// What a source text is compiled against.
#[derive(Debug)]
pub struct Context<'a> {
    /// The table that the names of the accounts go to.
    pub accounts: &'a mut Interner,
    /// The first day of the run.
    pub date_start: Datestamp,
    /// The day after the last day of the run.
    pub date_end: Datestamp,
}

/// The text without the white space at its ends, as `str::trim` leaves
/// it.
pub uninterp spec fn trimmed(text: Seq<char>) -> Seq<char>;

/// Calls `str::trim`. The contract only names the outcome.
#[verifier::external_body]
fn trim(text: &str) -> (inner: &str)
    ensures
        inner@ == trimmed(text@),
{
    text.trim()
}

/// The identifier of the account that `text` names once the white space
/// at its ends is gone. The name is added to the table unless it is there
/// already; `None`, with the table as it was, where the table is full.
pub fn parse_acc_node(accounts: &mut Interner, text: &str) -> (id: Option<ID>)
    ensures
        id.is_some() == (interned(*old(accounts)).len() < u32::MAX),
        id.is_none() ==> interned(*final(accounts)) == interned(*old(accounts)),
        id.is_some() ==> interned(*final(accounts)) == with_name(
            interned(*old(accounts)),
            trimmed(text@),
        ) && place_of(interned(*final(accounts)), trimmed(text@)) == Some(
            id.unwrap().index as int,
        ),
{
    accounts.try_intern(trim(text))
}

/// How many periods of the kind that `per` begins make one period of the
/// kind that `unit` begins, as a fraction: `y` is for a year, `q` for a
/// quarter, `m` for a month, `w` for a week and `d` for a day.
pub open spec fn periods(unit: char, per: char) -> Option<(i64, i64)> {
    if unit == 'y' {
        if per == 'y' {
            Some((1i64, 1i64))
        } else if per == 'q' {
            Some((1i64, 4i64))
        } else if per == 'm' {
            Some((1i64, 12i64))
        } else if per == 'w' {
            Some((1i64, 52i64))
        } else if per == 'd' {
            Some((1i64, 365i64))
        } else {
            None
        }
    } else if unit == 'q' {
        if per == 'y' {
            Some((4i64, 1i64))
        } else if per == 'q' {
            Some((1i64, 1i64))
        } else if per == 'm' {
            Some((1i64, 3i64))
        } else if per == 'w' {
            Some((1i64, 13i64))
        } else if per == 'd' {
            Some((4i64, 365i64))
        } else {
            None
        }
    } else if unit == 'm' {
        if per == 'y' {
            Some((12i64, 1i64))
        } else if per == 'q' {
            Some((3i64, 1i64))
        } else if per == 'm' {
            Some((1i64, 1i64))
        } else if per == 'w' {
            Some((1i64, 4i64))
        } else if per == 'd' {
            Some((1i64, 30i64))
        } else {
            None
        }
    } else if unit == 'w' {
        if per == 'y' {
            Some((52i64, 1i64))
        } else if per == 'q' {
            Some((13i64, 1i64))
        } else if per == 'm' {
            Some((4i64, 1i64))
        } else if per == 'w' {
            Some((1i64, 1i64))
        } else if per == 'd' {
            Some((1i64, 7i64))
        } else {
            None
        }
    } else if unit == 'd' {
        if per == 'y' {
            Some((365i64, 1i64))
        } else if per == 'q' {
            Some((91i64, 1i64))
        } else if per == 'm' {
            Some((30i64, 1i64))
        } else if per == 'w' {
            Some((7i64, 1i64))
        } else if per == 'd' {
            Some((1i64, 1i64))
        } else {
            None
        }
    } else {
        None
    }
}

/// The rate that turns an amount per period of one kind into an amount
/// per period of another.
pub open spec fn rate_of<M: Money>(unit: char, per: char) -> Option<M> {
    match periods(unit, per) {
        Some((above, below)) => Some(M::fraction(above, below)),
        None => None,
    }
}

/// How many of the period that `per` begins make one of the period that
/// `unit` begins, as a fraction.
pub fn parse_operation_rate_parts(unit: char, per: char) -> (parts: Option<(i64, i64)>)
    ensures
        parts == periods(unit, per),
{
    if unit == 'y' {
        if per == 'y' {
            Some((1, 1))
        } else if per == 'q' {
            Some((1, 4))
        } else if per == 'm' {
            Some((1, 12))
        } else if per == 'w' {
            Some((1, 52))
        } else if per == 'd' {
            Some((1, 365))
        } else {
            None
        }
    } else if unit == 'q' {
        if per == 'y' {
            Some((4, 1))
        } else if per == 'q' {
            Some((1, 1))
        } else if per == 'm' {
            Some((1, 3))
        } else if per == 'w' {
            Some((1, 13))
        } else if per == 'd' {
            Some((4, 365))
        } else {
            None
        }
    } else if unit == 'm' {
        if per == 'y' {
            Some((12, 1))
        } else if per == 'q' {
            Some((3, 1))
        } else if per == 'm' {
            Some((1, 1))
        } else if per == 'w' {
            Some((1, 4))
        } else if per == 'd' {
            Some((1, 30))
        } else {
            None
        }
    } else if unit == 'w' {
        if per == 'y' {
            Some((52, 1))
        } else if per == 'q' {
            Some((13, 1))
        } else if per == 'm' {
            Some((4, 1))
        } else if per == 'w' {
            Some((1, 1))
        } else if per == 'd' {
            Some((1, 7))
        } else {
            None
        }
    } else if unit == 'd' {
        if per == 'y' {
            Some((365, 1))
        } else if per == 'q' {
            Some((91, 1))
        } else if per == 'm' {
            Some((30, 1))
        } else if per == 'w' {
            Some((7, 1))
        } else if per == 'd' {
            Some((1, 1))
        } else {
            None
        }
    } else {
        None
    }
}

/// The rate that turns an amount per period of the kind that `unit` begins
/// into an amount per period of the kind that `per` begins: `None` where
/// one of the two characters begins no kind of period.
pub fn parse_operation_rate<M: Money>(unit: char, per: char) -> (rate: Option<M>)
    ensures
        rate == rate_of::<M>(unit, per),
{
    match parse_operation_rate_parts(unit, per) {
        Some((above, below)) => Some(M::ratio(above, below)),
        None => None,
    }
}

/// What may stand behind the amount of an operation.
#[derive(Debug)]
pub enum Modifier<M> {
    /// The rate of a change of period.
    Rate(M),
    /// An account: the amount is a percentage of its balance.
    Account(ID),
    /// Nothing but the sign of a percentage: the amount is a percentage of
    /// the balance of the current scope.
    Own,
}

/// The operation that an amount and what stands behind it mean.
pub open spec fn operation_of<M: Money>(
    symbols: Symbols,
    amount: M,
    modifier: Option<Modifier<M>>,
) -> Operation<M> {
    match modifier {
        None => Operation::Fixed(amount),
        Some(Modifier::Rate(rate)) => Operation::Rated(amount, rate),
        Some(Modifier::Account(account)) => Operation::Percent(amount, account),
        Some(Modifier::Own) => Operation::Percent(amount, symbols.self_),
    }
}

/// The operation that an amount and what stands behind it mean.
pub fn parse_operation<M: Money>(symbols: Symbols, amount: M, modifier: Option<Modifier<M>>) -> (operation:
    Operation<M>)
    ensures
        operation == operation_of(symbols, amount, modifier),
{
    match modifier {
        None => Operation::Fixed(amount),
        Some(modifier) => parse_operation_mod(symbols, amount, modifier),
    }
}

/// The operation that an amount with something behind it means.
pub fn parse_operation_mod<M: Money>(symbols: Symbols, amount: M, modifier: Modifier<M>) -> (operation:
    Operation<M>)
    ensures
        operation == operation_of(symbols, amount, Some(modifier)),
{
    match modifier {
        Modifier::Rate(rate) => Operation::Rated(amount, rate),
        Modifier::Account(account) => Operation::Percent(amount, account),
        Modifier::Own => Operation::Percent(amount, symbols.self_),
    }
}

/// The scope of statements that name none: branches get a balance of
/// their own, a list stays in the scope it stands in.
pub open spec fn scope_of(symbols: Symbols, parallel: bool, scope: Option<ID>) -> ID {
    match scope {
        Some(scope) => scope,
        None => if parallel {
            symbols.new_
        } else {
            symbols.self_
        },
    }
}

/// The statements that a bracketed group means: the children in the scope
/// that the group names, or in the scope that its kind has otherwise.
pub fn parse_statements<M: Money>(
    symbols: Symbols,
    parallel: bool,
    scope: Option<ID>,
    children: Vec<Statements<M>>,
) -> (tree: Statements<M>)
    ensures
        tree == if parallel {
            Statements::Parallel(scope_of(symbols, parallel, scope), children)
        } else {
            Statements::List(scope_of(symbols, parallel, scope), children)
        },
{
    let account = match scope {
        Some(scope) => scope,
        None => if parallel {
            symbols.new_
        } else {
            symbols.self_
        },
    };
    if parallel {
        Statements::Parallel(account, children)
    } else {
        Statements::List(account, children)
    }
}

/// The day that a word for a day of the run means.
pub open spec fn keyword_day(
    word: Seq<char>,
    start: Datestamp,
    end: Datestamp,
    today: Datestamp,
) -> Option<int> {
    if word == "today"@ {
        Some(today@)
    } else if word == "start"@ {
        Some(start@)
    } else if word == "end"@ && end@ > 1 {
        Some(end@ - 1)
    } else {
        None
    }
}

/// The schedule that a word for a day of the run means: `today` is the
/// day given as such, `start` the first day of the run, and `end` its last
/// day, which is the day before `end`. `None` for any other word, and for
/// `end` where no day lies before it.
pub fn parse_keyword(ctx: &Context<'_>, word: &str, today: Datestamp) -> (schedule: Option<
    Schedule,
>)
    ensures
        match schedule {
            Some(Schedule::Date(day)) => keyword_day(word@, ctx.date_start, ctx.date_end, today)
                == Some(day@),
            Some(_) => false,
            None => keyword_day(word@, ctx.date_start, ctx.date_end, today).is_none(),
        },
{
    if same(word, "today") {
        Some(Schedule::Date(today))
    } else if same(word, "start") {
        Some(Schedule::Date(ctx.date_start))
    } else if same(word, "end") {
        match ctx.date_end.pred() {
            Some(last) => Some(Schedule::Date(last)),
            None => None,
        }
    } else {
        None
    }
}

/// The union of `first` and the first `count` of `others`, nested to the
/// left.
pub open spec fn united(first: Schedule, others: Seq<Schedule>, count: nat) -> Schedule
    decreases count,
{
    if 0 < count <= others.len() {
        Schedule::TimeFunctionOr(
            Box::new(united(first, others, (count - 1) as nat)),
            Box::new(others[count - 1]),
        )
    } else {
        first
    }
}

/// The union of several schedules: `first`, or else any of `others`.
pub fn parse_either(first: Schedule, others: Vec<Schedule>) -> (schedule: Schedule)
    ensures
        schedule == united(first, others@, others@.len()),
{
    let mut schedule = first;
    let mut rest = others;
    let ghost all = rest@;
    let ghost mut done: nat = 0;
    while rest.len() > 0
        invariant
            done + rest@.len() == all.len(),
            rest@ == all.subrange(done as int, all.len() as int),
            schedule == united(first, all, done),
        decreases rest@.len(),
    {
        let next = rest.remove(0);
        schedule = Schedule::TimeFunctionOr(Box::new(schedule), Box::new(next));
        proof {
            assert(next == all[done as int]);
            done = done + 1;
            assert(rest@ =~= all.subrange(done as int, all.len() as int));
        }
    }
    schedule
}

/// The text of the rule that fires at noon on the days that `days` gives:
/// the fields of a second, a minute and an hour before the fields of
/// `days`.
pub open spec fn noon_rule(days: Seq<char>) -> Seq<char> {
    "0 0 12 "@ + days
}

/// The schedule of the rule that fires at noon on the days that the
/// fields of `days` give, or `None` where that is no rule.
pub fn parse_cron(days: &str) -> (schedule: Option<Schedule>)
    ensures
        match schedule {
            Some(Schedule::Cron(rule)) => rule@ == noon_rule(days@),
            Some(_) => false,
            None => !crate::schedule::cron_accepts(noon_rule(days@)),
        },
        schedule.is_some() == crate::schedule::cron_accepts(noon_rule(days@)),
{
    let text = String::from_str("0 0 12 ").concat(days);
    match Cron::new(text.as_str()) {
        Some(rule) => Some(Schedule::Cron(rule)),
        None => None,
    }
}

/// The schedule of the one day that `text` gives as a year, a month and
/// a day, or `None` where it gives none.
pub fn parse_date(text: &str) -> (schedule: Option<Schedule>)
    ensures
        match schedule {
            Some(Schedule::Date(day)) => text@.len() > 4 && parsed_day_number(
                text@,
                date_format(text@.subrange(4, 5)),
            ) == Some(day@),
            Some(_) => false,
            None => true,
        },
        schedule.is_some() == (text@.len() > 4 && parsed_day_number(
            text@,
            date_format(text@.subrange(4, 5)),
        ).is_some() && in_calendar(
            parsed_day_number(text@, date_format(text@.subrange(4, 5))).unwrap(),
        )),
{
    match Datestamp::parse(text) {
        Some(day) => Some(Schedule::Date(day)),
        None => None,
    }
}

} // verus!
