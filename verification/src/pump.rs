//! Evaluation of formulas.

use crate::money::Money;
use crate::ops::{entries, Action, Flow, FnT, Operator, Record, Statement};
use vstd::prelude::*;

verus! {

/// The change that an operator gives on the amount accumulated so far.
pub open spec fn changed<M: Money, F: FnT<M>>(operator: &Operator<M, F>, account: M) -> M {
    match operator {
        Operator::Value(value) => *value,
        Operator::Func(func) => func.applied(account),
    }
}

/// The factor by which a change counts: one for a change that comes in,
/// minus one for a change that goes out.
pub open spec fn weight<M: Money>(flow: Flow) -> M {
    match flow {
        Flow::In => M::fraction(1, 1),
        Flow::Out => M::fraction(-1i64, 1),
    }
}

/// The amount accumulated after a change of the given direction.
pub open spec fn pumped<M: Money>(flow: Flow, account: M, change: M) -> M {
    match flow {
        Flow::In => account.plus(change),
        Flow::Out => account.minus(change),
    }
}

/// What a formula comes to on the amount `account`: its change, and the
/// records of the transactions that were evaluated, in order.
pub open spec fn outcome<M: Money, F: FnT<M>>(action: &Action<M, F>, account: M) -> (
    M,
    Seq<(Seq<char>, M)>,
)
    decreases action, 0nat,
{
    match action {
        Action::Transaction { name, operator } => (
            changed(operator, account),
            seq![(name@, changed(operator, account))],
        ),
        Action::Variable(shared) => outcome(&**shared, account),
        Action::Sequence(children) => threaded(children@, children@.len()),
        Action::Parallel(children) => weighted(children@, children@.len(), account),
    }
}

/// What the first `count` of `children` come to one after another: the
/// first starts from nothing, and each of the others from what the ones
/// before it accumulated.
pub open spec fn threaded<M: Money, F: FnT<M>>(children: Seq<Statement<M, F>>, count: nat) -> (
    M,
    Seq<(Seq<char>, M)>,
)
    decreases children, count,
{
    if 0 < count <= children.len() {
        let before = threaded(children, (count - 1) as nat);
        let next = outcome(&children[count - 1].1, before.0);
        (pumped(children[count - 1].0, before.0, next.0), before.1 + next.1)
    } else {
        (M::nil(), Seq::empty())
    }
}

/// What the first `count` of `children` come to side by side: each is
/// evaluated on `account`, and their changes, each times its weight, add
/// up from nothing.
pub open spec fn weighted<M: Money, F: FnT<M>>(
    children: Seq<Statement<M, F>>,
    count: nat,
    account: M,
) -> (M, Seq<(Seq<char>, M)>)
    decreases children, count,
{
    if 0 < count <= children.len() {
        let before = weighted(children, (count - 1) as nat, account);
        let next = outcome(&children[count - 1].1, account);
        (before.0.plus(weight::<M>(children[count - 1].0).times(next.0)), before.1 + next.1)
    } else {
        (M::nil(), Seq::empty())
    }
}

/// Evaluates a formula from nothing: the amount it comes to, and the
/// record of every transaction that was evaluated, in order.
pub fn evaluate<M: Money, F: FnT<M>>(action: &Action<M, F>) -> (result: (M, Vec<Record<M>>))
    ensures
        result.0 == outcome(action, M::nil()).0,
        entries(result.1@) == outcome(action, M::nil()).1,
{
    let mut transactions: Vec<Record<M>> = Vec::new();
    let account = recurse(M::zero(), &mut transactions, action);
    proof {
        assert(entries(Seq::<Record<M>>::empty()) + outcome(action, M::nil()).1 =~= outcome(
            action,
            M::nil(),
        ).1);
    }
    (account, transactions)
}

/// Evaluates a formula on the amount `account` and adds the records of its
/// transactions to `transactions`.
pub fn recurse<M: Money, F: FnT<M>>(
    account: M,
    transactions: &mut Vec<Record<M>>,
    action: &Action<M, F>,
) -> (change: M)
    ensures
        change == outcome(action, account).0,
        entries(final(transactions)@) == entries(old(transactions)@) + outcome(action, account).1,
    decreases action,
{
    match action {
        Action::Transaction { name, operator } => {
            let change = match operator {
                Operator::Value(value) => *value,
                Operator::Func(func) => func.call(account),
            };
            transactions.push(Record { name: name.clone(), change });
            proof {
                assert(entries(transactions@) =~= entries(old(transactions)@) + outcome(
                    action,
                    account,
                ).1);
            }
            change
        },
        Action::Sequence(children) => {
            let mut total = M::zero();
            let mut done: usize = 0;
            while done < children.len()
                invariant
                    *action == Action::<M, F>::Sequence(*children),
                    done <= children@.len(),
                    total == threaded(children@, done as nat).0,
                    entries(transactions@) == entries(old(transactions)@) + threaded(
                        children@,
                        done as nat,
                    ).1,
                decreases children@.len() - done,
            {
                let ghost before = entries(transactions@);
                proof {
                    assert(decreases_to!(action => action->Sequence_0));
                    assert(decreases_to!(action->Sequence_0 => action->Sequence_0@));
                    assert(decreases_to!(action->Sequence_0@ => action->Sequence_0@[done as int]));
                }
                total = pump(total, transactions, &children[done]);
                proof {
                    let earlier = threaded(children@, done as nat);
                    let next = outcome(&children@[done as int].1, earlier.0);
                    assert(entries(transactions@) =~= entries(old(transactions)@) + (earlier.1
                        + next.1));
                }
                done += 1;
            }
            total
        },
        Action::Parallel(children) => {
            let mut total = M::zero();
            let mut done: usize = 0;
            while done < children.len()
                invariant
                    *action == Action::<M, F>::Parallel(*children),
                    done <= children@.len(),
                    total == weighted(children@, done as nat, account).0,
                    entries(transactions@) == entries(old(transactions)@) + weighted(
                        children@,
                        done as nat,
                        account,
                    ).1,
                decreases children@.len() - done,
            {
                proof {
                    assert(decreases_to!(action => action->Parallel_0));
                    assert(decreases_to!(action->Parallel_0 => action->Parallel_0@));
                    assert(decreases_to!(action->Parallel_0@ => action->Parallel_0@[done as int]));
                    assert(decreases_to!(action->Parallel_0@[done as int] => action->Parallel_0@[done as int].1));
                }
                let stmt = &children[done];
                let change = recurse(account, transactions, &stmt.1);
                total = total.sum(flow::<M>(stmt.0).product(change));
                proof {
                    let earlier = weighted(children@, done as nat, account);
                    let next = outcome(&children@[done as int].1, account);
                    assert(entries(transactions@) =~= entries(old(transactions)@) + (earlier.1
                        + next.1));
                }
                done += 1;
            }
            total
        },
        Action::Variable(var) => recurse(account, transactions, &**var),
    }
}

/// Evaluates the formula of a statement on the amount `account` and counts
/// its change in the direction of the statement.
pub fn pump<M: Money, F: FnT<M>>(
    account: M,
    transactions: &mut Vec<Record<M>>,
    stmt: &Statement<M, F>,
) -> (total: M)
    ensures
        total == pumped(stmt.0, account, outcome(&stmt.1, account).0),
        entries(final(transactions)@) == entries(old(transactions)@) + outcome(&stmt.1, account).1,
    decreases stmt,
{
    let change = recurse(account, transactions, &stmt.1);
    match stmt.0 {
        Flow::In => account.sum(change),
        Flow::Out => account.difference(change),
    }
}

/// The factor by which a change counts.
pub fn flow<M: Money>(direction: Flow) -> (factor: M)
    ensures
        factor == weight::<M>(direction),
{
    match direction {
        Flow::In => M::ratio(1, 1),
        Flow::Out => M::ratio(-1, 1),
    }
}

} // verus!
