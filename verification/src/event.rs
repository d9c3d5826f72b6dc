//! Events: a schedule and what happens on its days.

use crate::account::{interned, Books, Interner, Symbols};
use crate::transaction::{label_text, owned_label_text};
use crate::ledger::ID;
use crate::money::Money;
use crate::date::Datestamp;
use crate::schedule::{agenda, event_queue, lemma_agenda_holds, referred, Firing, Schedule};
use crate::statement::Statements;
use vstd::prelude::*;

verus! {

/// What happens on the days of a schedule: the statements are run once
/// inside the scope of each of the accounts, in the order given.
#[derive(Debug)]
pub struct Event<M: Money> {
    /// The days on which the event fires.
    pub schedule: Schedule,
    /// The accounts under which the statements run.
    pub accounts: Vec<ID>,
    /// What the event does.
    pub operations: Statements<M>,
}

/// The schedules of `events`.
pub open spec fn schedules_of<M: Money>(events: Seq<Event<M>>) -> Seq<Schedule> {
    events.map_values(|event: Event<M>| event.schedule)
}

impl<M: Money> Event<M> {
    /// Whether the event can be run under `depth` active scopes: each of
    /// its accounts can be entered, and every account that the statements
    /// name can be resolved where it stands.
    pub open spec fn scoped(&self, symbols: Symbols, depth: nat) -> bool {
        &&& forall|i: int|
            0 <= i < self.accounts@.len() ==> symbols.resolvable(depth, #[trigger] self.accounts@[i])
        &&& self.operations.scoped(symbols, depth + 1)
    }

    /// Whether the event can be run under `depth` active scopes.
    pub fn is_scoped(&self, symbols: &Symbols, depth: usize) -> (scoped: bool)
        ensures
            scoped == self.scoped(*symbols, depth as nat),
    {
        let mut place: usize = 0;
        while place < self.accounts.len()
            invariant
                place <= self.accounts@.len(),
                forall|i: int|
                    0 <= i < place ==> symbols.resolvable(
                        depth as nat,
                        #[trigger] self.accounts@[i],
                    ),
            decreases self.accounts@.len() - place,
        {
            if !symbols.can_resolve(depth, self.accounts[place]) {
                return false;
            }
            place += 1;
        }
        let inner: usize = if depth >= 2 {
            2
        } else {
            depth + 1
        };
        proof {
            self.operations.lemma_scoped_by_kind(*symbols, inner as nat, (depth + 1) as nat);
        }
        self.operations.is_scoped(symbols, inner)
    }

    /// The books after the event fired under the first `count` of its
    /// accounts.
    pub open spec fn ran_under(&self, count: nat, symbols: Symbols, books: Books<M>) -> Books<M>
        decreases count,
    {
        if 0 < count <= self.accounts@.len() {
            self.operations.ran(
                symbols,
                self.ran_under((count - 1) as nat, symbols, books).pushed(
                    symbols,
                    self.accounts@[count - 1],
                ),
            ).popped()
        } else {
            books
        }
    }

    /// All firings of `events` from `from` up to, and without, `until`, each
    /// with the place of its event: in order of their days, and those of one
    /// day in the order of the events.
    pub fn timeline(events: &Vec<Event<M>>, from: Datestamp, until: Datestamp) -> (queue: Vec<
        Firing,
    >)
        ensures
            queue@ == agenda(schedules_of(events@), from@, until@),
            forall|place: int|
                0 <= place < queue@.len() ==> (#[trigger] queue@[place]).1 < events@.len() && from@
                    <= queue@[place].0@ < until@ && events@[queue@[place].1 as int].schedule.occurs(
                    queue@[place].0@,
                ),
    {
        proof {
            use_type_invariant(&from);
            use_type_invariant(&until);
        }
        let mut schedules: Vec<&Schedule> = Vec::new();
        while schedules.len() < events.len()
            invariant
                schedules@.len() <= events@.len(),
                referred(schedules@) == schedules_of(events@).take(schedules@.len() as int),
            decreases events@.len() - schedules@.len(),
        {
            schedules.push(&events[schedules.len()].schedule);
            proof {
                assert(referred(schedules@) =~= schedules_of(events@).take(
                    schedules@.len() as int,
                ));
            }
        }
        proof {
            assert(referred(schedules@) =~= schedules_of(events@));
        }
        let queue = event_queue(&schedules, from, until);
        proof {
            assert forall|place: int| 0 <= place < queue@.len() implies (
            #[trigger] queue@[place]).1 < events@.len() && from@ <= queue@[place].0@ < until@
                && events@[queue@[place].1 as int].schedule.occurs(queue@[place].0@) by {
                lemma_agenda_holds(schedules_of(events@), from@, until@, place);
            }
        }
        queue
    }

    /// The books after the event fired on `books`.
    pub open spec fn ran(&self, symbols: Symbols, books: Books<M>) -> Books<M> {
        self.ran_under(self.accounts@.len(), symbols, books)
    }
}

/// A transfer as it is shown: its accounts by identifier, with the table
/// that holds their names.
#[derive(Debug)]
pub struct TransactionView<'a, 'e, M> {
    pub date: Datestamp,
    pub from: ID,
    pub to: ID,
    pub amount: M,
    pub description: Option<&'e str>,
    pub interner: &'a Interner,
}

impl<'a, 'e, M: Money> TransactionView<'a, 'e, M> {
    /// The name of the account that the amount leaves, where the table
    /// holds one.
    pub fn from(&self) -> (name: Option<&str>)
        ensures
            match name {
                Some(name) => self.from.index < interned(*self.interner).len() && name@
                    == interned(*self.interner)[self.from.index as int],
                None => self.from.index >= interned(*self.interner).len(),
            },
    {
        self.interner.resolve(self.from)
    }

    /// The name of the account that the amount joins, where the table holds
    /// one.
    pub fn to(&self) -> (name: Option<&str>)
        ensures
            match name {
                Some(name) => self.to.index < interned(*self.interner).len() && name@ == interned(
                    *self.interner,
                )[self.to.index as int],
                None => self.to.index >= interned(*self.interner).len(),
            },
    {
        self.interner.resolve(self.to)
    }
}

/// A transfer as it is kept: its accounts by name, with text of its own.
#[derive(Debug)]
pub struct Transaction<M> {
    pub date: Datestamp,
    pub from: String,
    pub to: String,
    pub amount: M,
    pub description: Option<String>,
}

impl<M: Money> Transaction<M> {
    /// The transfer with the names of its accounts: `None` where the table
    /// of the view holds no name for one of them.
    pub fn from_view(view: TransactionView<'_, '_, M>) -> (transaction: Option<Transaction<M>>)
        ensures
            transaction.is_some() == (view.from.index < interned(*view.interner).len()
                && view.to.index < interned(*view.interner).len()),
            transaction.is_some() ==> {
                &&& transaction.unwrap().date == view.date
                &&& transaction.unwrap().from@ == interned(*view.interner)[view.from.index as int]
                &&& transaction.unwrap().to@ == interned(*view.interner)[view.to.index as int]
                &&& transaction.unwrap().amount == view.amount
                &&& owned_label_text(transaction.unwrap().description) == label_text(
                    view.description,
                )
            },
    {
        let from = match view.from() {
            Some(from) => from.to_owned(),
            None => {
                return None;
            },
        };
        let to = match view.to() {
            Some(to) => to.to_owned(),
            None => {
                return None;
            },
        };
        Some(
            Transaction {
                date: view.date,
                from,
                to,
                amount: view.amount,
                description: match view.description {
                    Some(text) => Some(text.to_owned()),
                    None => None,
                },
            },
        )
    }
}

} // verus!
