//! Running statements and events against a stack.

use crate::account::{balances_of, merged, net_change, touched, Books, Stack, Symbols};
use crate::event::Event;
use crate::ledger::{balance_in, StackID, ID};
use crate::money::{Exact, Money};
use crate::statement::{settling, Operation, Statement, Statements};
use vstd::prelude::*;

verus! {

/// Running a tree of statements leaves the active scopes as they were;
/// inside its scope, just the scope is active beside them.
pub proof fn lemma_ran_keeps_frames<M: Money>(
    stmts: &Statements<M>,
    symbols: Symbols,
    books: Books<M>,
)
    ensures
        stmts.ran(symbols, books).frames == books.frames,
        !(stmts is Single) ==> stmts.inside(symbols, books).frames == books.pushed(
            symbols,
            stmts.scope(),
        ).frames,
    decreases stmts, 0nat,
{
    match stmts {
        Statements::List(scope, children) => {
            let entered = books.pushed(symbols, *scope);
            lemma_ran_each_keeps_frames(children@, children@.len(), symbols, entered);
            assert(entered.frames.drop_last() =~= books.frames);
        },
        Statements::Parallel(scope, children) => {
            let entered = books.pushed(symbols, *scope);
            assert(entered.frames.drop_last() =~= books.frames);
        },
        Statements::Single(statement) => {},
    }
}

/// Running statements one after another leaves the active scopes as they
/// were.
pub proof fn lemma_ran_each_keeps_frames<M: Money>(
    children: Seq<Statements<M>>,
    count: nat,
    symbols: Symbols,
    books: Books<M>,
)
    ensures
        Statements::ran_each(children, count, symbols, books).frames == books.frames,
    decreases children, count,
{
    if 0 < count <= children.len() {
        lemma_ran_each_keeps_frames(children, (count - 1) as nat, symbols, books);
        lemma_ran_keeps_frames(
            &children[count - 1],
            symbols,
            Statements::ran_each(children, (count - 1) as nat, symbols, books),
        );
    }
}

/// Running a tree of statements drops no key: what was booked on before
/// is still booked on after.
pub proof fn lemma_ran_keeps_keys<M: Money>(
    stmts: &Statements<M>,
    symbols: Symbols,
    books: Books<M>,
)
    ensures
        books.balances.dom().subset_of(stmts.ran(symbols, books).balances.dom()),
    decreases stmts, 0nat,
{
    match stmts {
        Statements::List(scope, children) => {
            lemma_ran_each_keeps_keys(
                children@,
                children@.len(),
                symbols,
                books.pushed(symbols, *scope),
            );
        },
        Statements::Parallel(scope, children) => {},
        Statements::Single(statement) => {},
    }
}

/// Running statements one after another drops no key.
pub proof fn lemma_ran_each_keeps_keys<M: Money>(
    children: Seq<Statements<M>>,
    count: nat,
    symbols: Symbols,
    books: Books<M>,
)
    ensures
        books.balances.dom().subset_of(
            Statements::ran_each(children, count, symbols, books).balances.dom(),
        ),
    decreases children, count,
{
    if 0 < count <= children.len() {
        lemma_ran_each_keeps_keys(children, (count - 1) as nat, symbols, books);
        lemma_ran_keeps_keys(
            &children[count - 1],
            symbols,
            Statements::ran_each(children, (count - 1) as nat, symbols, books),
        );
    }
}

/// Firing an event leaves the active scopes as they were and drops no key.
pub proof fn lemma_event_keeps<M: Money>(
    event: &Event<M>,
    count: nat,
    symbols: Symbols,
    books: Books<M>,
)
    ensures
        event.ran_under(count, symbols, books).frames == books.frames,
        books.balances.dom().subset_of(event.ran_under(count, symbols, books).balances.dom()),
    decreases count,
{
    if 0 < count <= event.accounts@.len() {
        lemma_event_keeps(event, (count - 1) as nat, symbols, books);
        let before = event.ran_under((count - 1) as nat, symbols, books);
        let entered = before.pushed(symbols, event.accounts@[count - 1]);
        lemma_ran_keeps_frames(&event.operations, symbols, entered);
        lemma_ran_keeps_keys(&event.operations, symbols, entered);
        assert(entered.frames.drop_last() =~= before.frames);
    }
}

/// What changed under `key` between two states of the balances.
pub open spec fn effect<M: Money>(
    before: Map<StackID, M>,
    after: Map<StackID, M>,
    key: StackID,
) -> M {
    balance_in(after, key).minus(balance_in(before, key))
}

/// What the first `count` of `branches` changed under `key`, each by
/// itself since `base`, added up from nothing.
pub open spec fn effects_summed<M: Money>(
    base: Map<StackID, M>,
    branches: Seq<Map<StackID, M>>,
    count: nat,
    key: StackID,
) -> M
    decreases count,
{
    if 0 < count <= branches.len() {
        effects_summed(base, branches, (count - 1) as nat, key).plus(
            effect(base, branches[count - 1], key),
        )
    } else {
        M::nil()
    }
}

/// For exact amounts, what branches that kept the keys of `base` changed
/// under a key, taken together, is the sum of what each changed by itself.
pub proof fn lemma_net_change_is_sum<M: Exact>(
    base: Map<StackID, M>,
    branches: Seq<Map<StackID, M>>,
    key: StackID,
)
    requires
        forall|i: int| 0 <= i < branches.len() ==> base.dom().subset_of((#[trigger] branches[i]).dom()),
    ensures
        net_change(base, branches, key) == effects_summed(base, branches, branches.len(), key),
        !touched(branches, key) ==> net_change(base, branches, key) == M::nil(),
    decreases branches.len(),
{
    if branches.len() > 0 {
        let fewer = branches.drop_last();
        let last = branches.last();
        assert forall|i: int| 0 <= i < fewer.len() implies base.dom().subset_of(
            (#[trigger] fewer[i]).dom(),
        ) by {
            assert(fewer[i] == branches[i]);
        }
        lemma_net_change_is_sum(base, fewer, key);
        lemma_sum_of_fewer(base, branches, fewer.len(), key);
        assert(base.dom().subset_of(branches[branches.len() - 1].dom()));
        if !last.dom().contains(key) {
            M::lemma_minus_itself(M::nil());
            M::lemma_plus_nil(net_change(base, fewer, key));
        }
        if !touched(branches, key) {
            assert(!branches[branches.len() - 1].dom().contains(key));
            assert(!touched(fewer, key)) by {
                if touched(fewer, key) {
                    let i = choose|i: int|
                        0 <= i < fewer.len() && (#[trigger] fewer[i]).dom().contains(key);
                    assert(branches[i].dom().contains(key));
                }
            }
        }
    }
}

/// The sum over the first branches does not go by the branches behind
/// them.
proof fn lemma_sum_of_fewer<M: Money>(
    base: Map<StackID, M>,
    branches: Seq<Map<StackID, M>>,
    count: nat,
    key: StackID,
)
    requires
        count < branches.len(),
    ensures
        effects_summed(base, branches.drop_last(), count, key) == effects_summed(
            base,
            branches,
            count,
            key,
        ),
    decreases count,
{
    if count > 0 {
        lemma_sum_of_fewer(base, branches, (count - 1) as nat, key);
        assert(branches.drop_last()[count - 1] == branches[count - 1]);
    }
}

/// Merging is linear: for exact amounts, what parallel branches change
/// under a key as a whole, up to the end of their scope, is the sum of what
/// each branch changes under it when it is run by itself on the books that
/// the branches start from.
pub proof fn lemma_parallel_is_linear<M: Exact>(
    scope: ID,
    children: Vec<Statements<M>>,
    symbols: Symbols,
    books: Books<M>,
    key: StackID,
)
    ensures
        effect(
            books.balances,
            Statements::Parallel(scope, children).inside(symbols, books).balances,
            key,
        ) == effects_summed(
            books.balances,
            Statements::ran_apart(children@, symbols, books.pushed(symbols, scope)),
            children@.len(),
            key,
        ),
{
    let entered = books.pushed(symbols, scope);
    let branches = Statements::ran_apart(children@, symbols, entered);
    let base = entered.balances;
    assert forall|i: int| 0 <= i < branches.len() implies base.dom().subset_of(
        (#[trigger] branches[i]).dom(),
    ) by {
        lemma_ran_keeps_keys(&children@[i], symbols, entered);
    }
    lemma_net_change_is_sum(base, branches, key);
    let after = merged(base, branches);
    if touched(branches, key) {
        M::lemma_plus_then_minus(balance_in(base, key), net_change(base, branches, key));
    } else {
        M::lemma_minus_itself(balance_in(base, key));
    }
}

/// Every scope is settled when it is left: after a list or parallel
/// branches were run with exact amounts, nothing is left under the key of
/// their scope, and what was there at the end of the scope has gone to the
/// scope around it. This holds as long as the key of the scope is not also
/// the key of the scope around it.
pub proof fn lemma_scope_settles<M: Exact>(stmts: &Statements<M>, symbols: Symbols, books: Books<M>)
    requires
        symbols.distinct(),
        !(stmts is Single),
        books.frames.len() >= 1,
        symbols.resolvable(books.frames.len(), stmts.scope()),
        symbols.resolved(books.frames, stmts.scope()) != books.frames.last(),
    ensures
        stmts.ran(symbols, books).balance(symbols.resolved(books.frames, stmts.scope()))
            == M::nil(),
        stmts.ran(symbols, books).balance(books.frames.last()) == stmts.inside(
            symbols,
            books,
        ).balance(books.frames.last()).plus(
            stmts.inside(symbols, books).balance(symbols.resolved(books.frames, stmts.scope())),
        ),
{
    lemma_ran_keeps_frames(stmts, symbols, books);
    let inner = stmts.inside(symbols, books);
    let own = symbols.resolved(books.frames, stmts.scope());
    assert(inner.frames.last() == own);
    let around = books.frames.last();
    assert(inner.frames.len() == books.frames.len() + 1);
    assert(inner.frames[inner.frames.len() - 2] == around);
    assert(symbols.resolved(inner.frames, symbols.self_) == own);
    assert(symbols.resolved(inner.frames, symbols.super_) == around);
    M::lemma_minus_itself(inner.balance(own));
    let settled = settling::<M>(symbols).ran(symbols, inner);
    assert(settled == inner.transferred(own, around, inner.balance(own)));
    assert(settled.balance(own) == M::nil());
    assert(settled.popped().balances == settled.balances);
}

/// The amount that an operation gives on the stack as it is.
pub fn amount<M: Money>(operation: &Operation<M>, stack: &Stack<M>) -> (amount: M)
    requires
        stack.wf(),
        operation.scoped(stack.symbols(), stack@.frames.len()),
    ensures
        amount == operation.value(stack.symbols(), stack@),
{
    match operation {
        Operation::Fixed(amount) => *amount,
        Operation::Rated(amount, rate) => amount.product(*rate),
        Operation::Percent(share, account) => share.quotient(M::ratio(100, 1)).product(
            stack.index(*account),
        ),
        Operation::Balance(account) => stack.index(*account),
    }
}

/// Makes one transfer: finds its amount on the stack as it is, takes it
/// from the one account and adds it to the other.
pub fn statement<M: Money>(stmt: &Statement<M>, stack: &mut Stack<M>)
    requires
        old(stack).wf(),
        stmt.scoped(old(stack).symbols(), old(stack)@.frames.len()),
    ensures
        final(stack).wf(),
        final(stack).symbols() == old(stack).symbols(),
        final(stack)@ == stmt.ran(old(stack).symbols(), old(stack)@),
{
    let delta = amount(&stmt.func, stack);
    stack.transfer(stmt.from, stmt.to, delta);
}

/// Runs a tree of statements against the stack.
///
/// A list enters its scope, runs its children one after another, settles
/// the scope and leaves it. Parallel branches enter their scope, run each
/// child on a copy of the stack of its own, merge the copies back, settle
/// the scope and leave it.
pub fn statements<M: Money>(stmts: &Statements<M>, stack: &mut Stack<M>)
    requires
        old(stack).wf(),
        stmts.scoped(old(stack).symbols(), old(stack)@.frames.len()),
    ensures
        final(stack).wf(),
        final(stack).symbols() == old(stack).symbols(),
        final(stack)@ == stmts.ran(old(stack).symbols(), old(stack)@),
        final(stack)@.frames == old(stack)@.frames,
    decreases stmts,
{
    let ghost symbols = stack.symbols();
    proof {
        lemma_ran_keeps_frames(stmts, symbols, stack@);
    }
    match stmts {
        Statements::List(acid, list) => {
            stack.push(*acid);
            let ghost entered = stack@;
            let mut done: usize = 0;
            while done < list.len()
                invariant
                    *stmts == Statements::<M>::List(*acid, *list),
                    stack.wf(),
                    stack.symbols() == symbols,
                    done <= list@.len(),
                    entered.frames.len() == old(stack)@.frames.len() + 1,
                    forall|i: int|
                        0 <= i < list@.len() ==> (#[trigger] list@[i]).scoped(
                            symbols,
                            entered.frames.len(),
                        ),
                    stack@ == Statements::ran_each(list@, done as nat, symbols, entered),
                decreases list@.len() - done,
            {
                proof {
                    lemma_ran_each_keeps_frames(list@, done as nat, symbols, entered);
                    assert(decreases_to!(stmts => stmts->List_1));
                    assert(decreases_to!(stmts->List_1 => stmts->List_1@));
                    assert(decreases_to!(stmts->List_1@ => stmts->List_1@[done as int]));
                }
                statements(&list[done], stack);
                done += 1;
            }
            statement(&Statement::settlement(stack.reserved()), stack);
            stack.pop();
        },
        Statements::Parallel(acid, set) => {
            stack.push(*acid);
            let ghost entered = stack@;
            let mut shadows: Vec<Stack<M>> = Vec::new();
            while shadows.len() < set.len()
                invariant
                    *stmts == Statements::<M>::Parallel(*acid, *set),
                    stack.wf(),
                    stack.symbols() == symbols,
                    stack@ == entered,
                    shadows@.len() <= set@.len(),
                    entered.frames.len() == old(stack)@.frames.len() + 1,
                    forall|i: int|
                        0 <= i < set@.len() ==> (#[trigger] set@[i]).scoped(
                            symbols,
                            entered.frames.len(),
                        ),
                    forall|i: int|
                        0 <= i < shadows@.len() ==> (#[trigger] shadows@[i]).wf() && shadows@[i]@
                            == set@[i].ran(symbols, entered),
                decreases set@.len() - shadows@.len(),
            {
                let mut shadow = stack.duplicate();
                proof {
                    assert(decreases_to!(stmts => stmts->Parallel_1));
                    assert(decreases_to!(stmts->Parallel_1 => stmts->Parallel_1@));
                    assert(decreases_to!(stmts->Parallel_1@ => stmts->Parallel_1@[shadows@.len() as int]));
                }
                statements(&set[shadows.len()], &mut shadow);
                shadows.push(shadow);
            }
            proof {
                assert(balances_of(shadows@) =~= Statements::ran_apart(set@, symbols, entered));
            }
            stack.merge(shadows);
            statement(&Statement::settlement(stack.reserved()), stack);
            stack.pop();
        },
        Statements::Single(stmt) => {
            statement(stmt, stack);
        },
    }
}

/// Fires an event: runs its statements inside the scope of each of its
/// accounts in turn.
pub fn event<M: Money>(event: &Event<M>, stack: &mut Stack<M>)
    requires
        old(stack).wf(),
        event.scoped(old(stack).symbols(), old(stack)@.frames.len()),
    ensures
        final(stack).wf(),
        final(stack).symbols() == old(stack).symbols(),
        final(stack)@ == event.ran(old(stack).symbols(), old(stack)@),
        final(stack)@.frames == old(stack)@.frames,
{
    let ghost symbols = stack.symbols();
    let mut done: usize = 0;
    while done < event.accounts.len()
        invariant
            stack.wf(),
            stack.symbols() == symbols,
            done <= event.accounts@.len(),
            event.scoped(symbols, old(stack)@.frames.len()),
            stack@.frames == old(stack)@.frames,
            stack@ == event.ran_under(done as nat, symbols, old(stack)@),
        decreases event.accounts@.len() - done,
    {
        let ghost before = stack@;
        stack.push(event.accounts[done]);
        statements(&event.operations, stack);
        stack.pop();
        proof {
            assert(stack@.frames =~= before.frames);
        }
        done += 1;
    }
}

} // verus!
