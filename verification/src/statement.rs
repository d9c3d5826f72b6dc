//! Statements: the transfers that an event makes when it fires.

use crate::account::{merged, Books, Symbols};
use crate::ledger::{StackID, ID};
use crate::money::Money;
use vstd::prelude::*;

verus! {

/// How the amount of a transfer is found when the transfer is made.
#[derive(Debug)]
pub enum Operation<M: Money> {
    /// The amount itself.
    Fixed(M),
    /// An amount per period times the number of periods: the product of the
    /// two.
    Rated(M, M),
    /// So many hundredths of the balance of an account.
    Percent(M, ID),
    /// The whole balance of an account.
    Balance(ID),
}

impl<M: Money> Operation<M> {
    /// Whether the account that the operation reads, if any, can be resolved
    /// under `depth` active scopes.
    pub open spec fn scoped(&self, symbols: Symbols, depth: nat) -> bool {
        match self {
            Operation::Fixed(_) => true,
            Operation::Rated(_, _) => true,
            Operation::Percent(_, account) => symbols.resolvable(depth, *account),
            Operation::Balance(account) => symbols.resolvable(depth, *account),
        }
    }

    /// The amount that the operation gives on `books`.
    pub open spec fn value(&self, symbols: Symbols, books: Books<M>) -> M {
        match self {
            Operation::Fixed(amount) => *amount,
            Operation::Rated(amount, rate) => amount.times(*rate),
            Operation::Percent(share, account) => share.over(M::fraction(100, 1)).times(
                books.balance(symbols.resolved(books.frames, *account)),
            ),
            Operation::Balance(account) => books.balance(
                symbols.resolved(books.frames, *account),
            ),
        }
    }
}

/// The transfer that settles a scope: the whole balance of `self` goes up
/// to `super`.
pub open spec fn settling<M: Money>(symbols: Symbols) -> Statement<M> {
    Statement {
        from: symbols.self_,
        to: symbols.super_,
        func: Operation::Balance(symbols.self_),
        label: None,
    }
}

/// One transfer between two accounts.
#[derive(Debug)]
pub struct Statement<M: Money> {
    /// The account that the amount leaves.
    pub from: ID,
    /// The account that the amount joins.
    pub to: ID,
    /// How the amount is found.
    pub func: Operation<M>,
    /// What the transfer is for.
    pub label: Option<String>,
}

impl<M: Money> Statement<M> {
    /// Whether every account that the transfer names can be resolved under
    /// `depth` active scopes.
    pub open spec fn scoped(&self, symbols: Symbols, depth: nat) -> bool {
        &&& symbols.resolvable(depth, self.from)
        &&& symbols.resolvable(depth, self.to)
        &&& self.func.scoped(symbols, depth)
    }

    /// The books after the transfer: the amount is found on the books as
    /// they are, then leaves `from` and joins `to`.
    pub open spec fn ran(&self, symbols: Symbols, books: Books<M>) -> Books<M> {
        books.transferred(
            symbols.resolved(books.frames, self.from),
            symbols.resolved(books.frames, self.to),
            self.func.value(symbols, books),
        )
    }

    /// Whether every account that the transfer names can be resolved under
    /// `depth` active scopes.
    pub fn is_scoped(&self, symbols: &Symbols, depth: usize) -> (scoped: bool)
        ensures
            scoped == self.scoped(*symbols, depth as nat),
    {
        let read = match &self.func {
            Operation::Fixed(_) => true,
            Operation::Rated(_, _) => true,
            Operation::Percent(_, account) => symbols.can_resolve(depth, *account),
            Operation::Balance(account) => symbols.can_resolve(depth, *account),
        };
        symbols.can_resolve(depth, self.from) && symbols.can_resolve(depth, self.to) && read
    }

    /// The transfer that settles a scope: the whole balance of `self` goes
    /// up to `super`.
    pub fn settlement(symbols: Symbols) -> (statement: Statement<M>)
        ensures
            statement == settling::<M>(symbols),
    {
        Statement {
            from: symbols.self_,
            to: symbols.super_,
            func: Operation::Balance(symbols.self_),
            label: None,
        }
    }
}

/// A tree of transfers.
///
/// A list and parallel branches each have a scope. When its children have
/// run, the scope is settled: what is left under it goes up to the scope
/// around it.
#[derive(Debug)]
pub enum Statements<M: Money> {
    /// The children one after another, inside the scope of an account.
    List(ID, Vec<Statements<M>>),
    /// The children side by side, inside the scope of an account: each
    /// starts from the same books, and what they change is merged.
    Parallel(ID, Vec<Statements<M>>),
    /// One transfer.
    Single(Statement<M>),
}

impl<M: Money> Statements<M> {
    /// Whether every account that the tree names can be resolved where it
    /// stands, when the tree is run under `depth` active scopes.
    pub open spec fn scoped(&self, symbols: Symbols, depth: nat) -> bool
        decreases self,
    {
        match self {
            Statements::List(scope, children) => symbols.resolvable(depth, *scope) && settling::<
                M,
            >(symbols).scoped(symbols, depth + 1) && forall|i: int|
                0 <= i < children@.len() ==> (#[trigger] children@[i]).scoped(symbols, depth + 1),
            Statements::Parallel(scope, children) => symbols.resolvable(depth, *scope) && settling::<
                M,
            >(symbols).scoped(symbols, depth + 1) && forall|i: int|
                0 <= i < children@.len() ==> (#[trigger] children@[i]).scoped(symbols, depth + 1),
            Statements::Single(statement) => statement.scoped(symbols, depth),
        }
    }

    /// Whether the tree can be run under `depth` active scopes goes by
    /// whether there is none, one, or more than one.
    pub proof fn lemma_scoped_by_kind(&self, symbols: Symbols, depth: nat, other: nat)
        requires
            depth == other || (depth >= 2 && other >= 2),
        ensures
            self.scoped(symbols, depth) == self.scoped(symbols, other),
        decreases self,
    {
        match self {
            Statements::List(scope, children) => {
                assert forall|i: int| 0 <= i < children@.len() implies (
                #[trigger] children@[i]).scoped(symbols, depth + 1) == children@[i].scoped(
                    symbols,
                    other + 1,
                ) by {
                    children@[i].lemma_scoped_by_kind(symbols, depth + 1, other + 1);
                }
            },
            Statements::Parallel(scope, children) => {
                assert forall|i: int| 0 <= i < children@.len() implies (
                #[trigger] children@[i]).scoped(symbols, depth + 1) == children@[i].scoped(
                    symbols,
                    other + 1,
                ) by {
                    children@[i].lemma_scoped_by_kind(symbols, depth + 1, other + 1);
                }
            },
            Statements::Single(statement) => {},
        }
    }

    /// Whether every account that the tree names can be resolved where it
    /// stands, when the tree is run under `depth` active scopes.
    pub fn is_scoped(&self, symbols: &Symbols, depth: usize) -> (scoped: bool)
        ensures
            scoped == self.scoped(*symbols, depth as nat),
        decreases self,
    {
        let inner: usize = if depth >= 2 {
            2
        } else {
            depth + 1
        };
        match self {
            Statements::List(scope, children) => {
                if !symbols.can_resolve(depth, *scope) {
                    return false;
                }
                if !Statement::<M>::settlement(*symbols).is_scoped(symbols, inner) {
                    return false;
                }
                let mut place: usize = 0;
                while place < children.len()
                    invariant
                        *self == Statements::<M>::List(*scope, *children),
                        place <= children@.len(),
                        inner == depth + 1 || (inner >= 2 && depth + 1 >= 2),
                        forall|i: int|
                            0 <= i < place ==> (#[trigger] children@[i]).scoped(
                                *symbols,
                                (depth + 1) as nat,
                            ),
                    decreases children@.len() - place,
                {
                    proof {
                        assert(decreases_to!(self => self->List_1));
                        assert(decreases_to!(self->List_1 => self->List_1@));
                        assert(decreases_to!(self->List_1@ => self->List_1@[place as int]));
                        children@[place as int].lemma_scoped_by_kind(
                            *symbols,
                            inner as nat,
                            (depth + 1) as nat,
                        );
                    }
                    if !children[place].is_scoped(symbols, inner) {
                        return false;
                    }
                    place += 1;
                }
                true
            },
            Statements::Parallel(scope, children) => {
                if !symbols.can_resolve(depth, *scope) {
                    return false;
                }
                if !Statement::<M>::settlement(*symbols).is_scoped(symbols, inner) {
                    return false;
                }
                let mut place: usize = 0;
                while place < children.len()
                    invariant
                        *self == Statements::<M>::Parallel(*scope, *children),
                        place <= children@.len(),
                        inner == depth + 1 || (inner >= 2 && depth + 1 >= 2),
                        forall|i: int|
                            0 <= i < place ==> (#[trigger] children@[i]).scoped(
                                *symbols,
                                (depth + 1) as nat,
                            ),
                    decreases children@.len() - place,
                {
                    proof {
                        assert(decreases_to!(self => self->Parallel_1));
                        assert(decreases_to!(self->Parallel_1 => self->Parallel_1@));
                        assert(decreases_to!(self->Parallel_1@ => self->Parallel_1@[place as int]));
                        children@[place as int].lemma_scoped_by_kind(
                            *symbols,
                            inner as nat,
                            (depth + 1) as nat,
                        );
                    }
                    if !children[place].is_scoped(symbols, inner) {
                        return false;
                    }
                    place += 1;
                }
                true
            },
            Statements::Single(statement) => statement.is_scoped(symbols, depth),
        }
    }

    /// The account whose scope a list or parallel branches run in.
    pub open spec fn scope(&self) -> ID
        recommends
            !(self is Single),
    {
        match self {
            Statements::List(scope, _) => *scope,
            Statements::Parallel(scope, _) => *scope,
            Statements::Single(statement) => statement.from,
        }
    }

    /// The books at the end of a scope, before the scope is settled and
    /// left: the scope was entered, and its children were run, those of a
    /// list one after another, parallel branches each on the books as they
    /// were on entry, with what they changed merged. For one transfer: the
    /// books as they are.
    pub open spec fn inside(&self, symbols: Symbols, books: Books<M>) -> Books<M>
        decreases self, 1nat,
    {
        match self {
            Statements::List(scope, children) => Statements::ran_each(
                children@,
                children@.len(),
                symbols,
                books.pushed(symbols, *scope),
            ),
            Statements::Parallel(scope, children) => {
                let entered = books.pushed(symbols, *scope);
                Books {
                    balances: merged(
                        entered.balances,
                        Statements::ran_apart(children@, symbols, entered),
                    ),
                    ..entered
                }
            },
            Statements::Single(_) => books,
        }
    }

    /// The books after the tree was run on `books`.
    ///
    /// At the end of every scope, of a list as of parallel branches, the
    /// scope is settled: the whole balance of `self` goes up to `super`.
    /// Then the scope is left.
    pub open spec fn ran(&self, symbols: Symbols, books: Books<M>) -> Books<M>
        decreases self, 2nat,
    {
        match self {
            Statements::List(_, _) => settling::<M>(symbols).ran(
                symbols,
                self.inside(symbols, books),
            ).popped(),
            Statements::Parallel(_, _) => settling::<M>(symbols).ran(
                symbols,
                self.inside(symbols, books),
            ).popped(),
            Statements::Single(statement) => statement.ran(symbols, books),
        }
    }

    /// The books after the first `count` of `children` were run on `books`
    /// one after another.
    pub open spec fn ran_each(
        children: Seq<Statements<M>>,
        count: nat,
        symbols: Symbols,
        books: Books<M>,
    ) -> Books<M>
        decreases children, count,
    {
        if 0 < count <= children.len() {
            children[count - 1].ran(
                symbols,
                Statements::ran_each(children, (count - 1) as nat, symbols, books),
            )
        } else {
            books
        }
    }

    /// The balances after each of `children` was run on `books` by itself.
    pub open spec fn ran_apart(
        children: Seq<Statements<M>>,
        symbols: Symbols,
        books: Books<M>,
    ) -> Seq<Map<StackID, M>>
        decreases children, children.len(),
    {
        Seq::new(
            children.len(),
            |i: int|
                if 0 <= i < children.len() {
                    children[i].ran(symbols, books).balances
                } else {
                    books.balances
                },
        )
    }
}

} // verus!
