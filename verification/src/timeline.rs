//! The timeline: events replayed in the order of their days, with the
//! balances that every account had after each of them.

use crate::account::{interned, place_of, with_name, Books, Interner, Stack, Symbols};
use crate::date::Datestamp;
use crate::event::{schedules_of, Event};
use crate::ledger::{StackID, ID};
use crate::money::Money;
use crate::process;
use crate::schedule::{agenda, Firing};
use crate::transaction::{NameView, Source};
use std::collections::HashMap;
use vstd::prelude::*;
use vstd::std_specs::hash::*;

verus! {

/// The balances that each account had: under the place of the name of an
/// account, the day of the first firing after which the account had a
/// balance, and its balance after that firing and after every later one.
pub type Histories<M> = HashMap<u32, (Datestamp, Vec<M>)>;

/// One firing as it is reported.
#[derive(Debug)]
pub struct Moment<'t, M> {
    /// The day of the firing.
    pub date: Datestamp,
    /// The transfer that stands for the firing.
    pub transaction: Source<'t, M>,
}

/// What a run has come to: the books, the day of every firing so far, and
/// the balances that each account had after the firings since it was first
/// booked on, with the day of the first of them.
pub struct Run<M> {
    pub books: Books<M>,
    pub dates: Seq<Datestamp>,
    pub past: Map<ID, (Datestamp, Seq<M>)>,
}

/// The histories after the balances were noted on `date`: each account
/// that has a balance gets it added to its history, which starts on `date`
/// where the account had none.
pub open spec fn recorded<M>(
    past: Map<ID, (Datestamp, Seq<M>)>,
    date: Datestamp,
    balances: Map<StackID, M>,
) -> Map<ID, (Datestamp, Seq<M>)> {
    Map::new(
        |id: ID| past.dom().contains(id) || balances.dom().contains(StackID::Account(id)),
        |id: ID|
            if balances.dom().contains(StackID::Account(id)) {
                if past.dom().contains(id) {
                    (past[id].0, past[id].1.push(balances[StackID::Account(id)]))
                } else {
                    (date, seq![balances[StackID::Account(id)]])
                }
            } else {
                past[id]
            },
    )
}

/// The run after one firing: the event is run on the books, its day joins
/// the days, and the balances are noted.
pub open spec fn stepped<M: Money>(run: Run<M>, symbols: Symbols, event: &Event<M>, date: Datestamp) -> Run<
    M,
> {
    let books = event.ran(symbols, run.books);
    Run { books, dates: run.dates.push(date), past: recorded(run.past, date, books.balances) }
}

/// The run after the first `count` firings of `firings`.
pub open spec fn replayed<M: Money>(
    run: Run<M>,
    symbols: Symbols,
    events: Seq<Event<M>>,
    firings: Seq<Firing>,
    count: nat,
) -> Run<M>
    decreases count,
{
    if 0 < count <= firings.len() {
        stepped(
            replayed(run, symbols, events, firings, (count - 1) as nat),
            symbols,
            &events[firings[count - 1].1 as int],
            firings[count - 1].0,
        )
    } else {
        run
    }
}

/// How a firing is reported: as a transfer of one hundred from the first
/// account of its event to that same account. An event needs an account to
/// be reported.
pub open spec fn reported<M: Money>(events: Seq<Event<M>>, firing: Firing) -> Moment<'static, M> {
    Moment {
        date: firing.0,
        transaction: Source {
            date: firing.0,
            from: events[firing.1 as int].accounts@[0],
            to: events[firing.1 as int].accounts@[0],
            amount: M::fraction(100, 1),
            label: None,
        },
    }
}

/// The identifiers that the names `new`, `self` and `super` have once
/// they were added to `names`.
pub open spec fn reserved(names: Seq<Seq<char>>) -> Symbols {
    let all = with_name(with_name(with_name(names, "new"@), "self"@), "super"@);
    Symbols {
        new_: ID { index: place_of(all, "new"@).unwrap() as u32 },
        self_: ID { index: place_of(all, "self"@).unwrap() as u32 },
        super_: ID { index: place_of(all, "super"@).unwrap() as u32 },
    }
}

/// The histories by account.
pub open spec fn past_of<M>(histories: Map<u32, (Datestamp, Vec<M>)>) -> Map<
    ID,
    (Datestamp, Seq<M>),
> {
    Map::new(
        |id: ID| histories.contains_key(id.index),
        |id: ID| (histories[id.index].0, histories[id.index].1@),
    )
}

/// Whether every history ends with the latest firing: it is no longer than
/// the run, and its first day is the day of the firing that it starts at.
pub open spec fn aligned<M>(past: Map<ID, (Datestamp, Seq<M>)>, dates: Seq<Datestamp>) -> bool {
    forall|id: ID|
        #![trigger past[id]]
        past.dom().contains(id) ==> 0 < past[id].1.len() <= dates.len() && dates[dates.len()
            - past[id].1.len()] == past[id].0
}

/// Adds `amount` to the history of `account`, which starts on `date` where
/// the account has none.
fn note<M: Money>(history: &mut Histories<M>, account: ID, date: Datestamp, amount: M)
    ensures
        past_of(final(history)@) == past_of(old(history)@).insert(
            account,
            if past_of(old(history)@).dom().contains(account) {
                (
                    past_of(old(history)@)[account].0,
                    past_of(old(history)@)[account].1.push(amount),
                )
            } else {
                (date, seq![amount])
            },
        ),
{
    broadcast use group_hash_axioms;

    let ghost before = history@;
    let entry = match history.remove(&account.index) {
        Some((first, balances)) => {
            let mut balances = balances;
            balances.push(amount);
            (first, balances)
        },
        None => {
            let mut balances: Vec<M> = Vec::new();
            balances.push(amount);
            (date, balances)
        },
    };
    let ghost kept = (entry.0, entry.1@);
    history.insert(account.index, entry);
    proof {
        assert(history@ == before.remove(account.index).insert(account.index, entry));
        let goal = past_of(before).insert(account, kept);
        assert forall|id: ID| past_of(history@).dom().contains(id) == goal.dom().contains(id) by {
            if id.index == account.index {
                assert(id == account);
            }
        }
        assert forall|id: ID| past_of(history@).dom().contains(id) implies (#[trigger] past_of(
            history@,
        )[id]) == goal[id] by {
            if id.index == account.index {
                assert(id == account);
            }
        }
        assert(past_of(history@) =~= goal);
        if !before.contains_key(account.index) {
            assert(kept.1 =~= seq![amount]);
        }
    }
}

/// Whether `id` is the account of one of the first `count` of `accounts`.
pub open spec fn among<M>(accounts: Seq<(ID, M)>, count: int, id: ID) -> bool {
    exists|i: int| 0 <= i < count && (#[trigger] accounts[i]).0 == id
}

/// Notes the balance of every account of the stack on `date`.
fn snapshot<M: Money>(history: &mut Histories<M>, stack: &Stack<M>, date: Datestamp)
    requires
        stack.wf(),
    ensures
        past_of(final(history)@) == recorded(past_of(old(history)@), date, stack@.balances),
{
    let accounts = stack.balances();
    let ghost before = past_of(history@);
    let ghost balances = stack@.balances;
    let mut place: usize = 0;
    while place < accounts.len()
        invariant
            place <= accounts@.len(),
            balances == stack@.balances,
            forall|i: int|
                0 <= i < accounts@.len() ==> balances.dom().contains(
                    StackID::Account((#[trigger] accounts@[i]).0),
                ) && balances[StackID::Account(accounts@[i].0)] == accounts@[i].1,
            forall|i: int, j: int|
                0 <= i < j < accounts@.len() ==> accounts@[i].0 != accounts@[j].0,
            forall|id: ID|
                #![trigger past_of(history@).dom().contains(id)]
                past_of(history@).dom().contains(id) == (before.dom().contains(id) || among(
                    accounts@,
                    place as int,
                    id,
                )),
            forall|id: ID|
                #![trigger past_of(history@)[id]]
                past_of(history@).dom().contains(id) ==> past_of(history@)[id] == if among(
                    accounts@,
                    place as int,
                    id,
                ) {
                    recorded(before, date, balances)[id]
                } else {
                    before[id]
                },
        decreases accounts@.len() - place,
    {
        let ghost earlier = past_of(history@);
        let (account, amount) = accounts[place];
        proof {
            assert(!among(accounts@, place as int, account)) by {
                if among(accounts@, place as int, account) {
                    let i = choose|i: int| 0 <= i < place && (#[trigger] accounts@[i]).0 == account;
                    assert(accounts@[i].0 != accounts@[place as int].0);
                }
            }
            assert(earlier.dom().contains(account) == before.dom().contains(account));
            if earlier.dom().contains(account) {
                assert(earlier[account] == before[account]);
            }
        }
        note(history, account, date, amount);
        proof {
            assert forall|id: ID|
                among(accounts@, place + 1, id) == (among(accounts@, place as int, id) || id
                    == account) by {
                if id == account {
                    assert(accounts@[place as int].0 == id);
                }
                if among(accounts@, place as int, id) {
                    let i = choose|i: int| 0 <= i < place && (#[trigger] accounts@[i]).0 == id;
                    assert(0 <= i < place + 1);
                }
            }
            assert forall|id: ID|
                #![trigger past_of(history@).dom().contains(id)]
                past_of(history@).dom().contains(id) == (before.dom().contains(id) || among(
                    accounts@,
                    place + 1,
                    id,
                )) by {
                assert(earlier.dom().contains(id) == (before.dom().contains(id) || among(
                    accounts@,
                    place as int,
                    id,
                )));
            }
            assert forall|id: ID|
                #![trigger past_of(history@)[id]]
                past_of(history@).dom().contains(id) implies past_of(history@)[id] == if among(
                    accounts@,
                    place + 1,
                    id,
                ) {
                    recorded(before, date, balances)[id]
                } else {
                    before[id]
                } by {
                if id != account {
                    assert(earlier.dom().contains(id));
                    assert(earlier[id] == if among(accounts@, place as int, id) {
                        recorded(before, date, balances)[id]
                    } else {
                        before[id]
                    });
                }
            }
        }
        place += 1;
    }
    proof {
        let goal = recorded(before, date, balances);
        assert forall|id: ID|
            among(accounts@, accounts@.len() as int, id) == balances.dom().contains(
                StackID::Account(id),
            ) by {
            if balances.dom().contains(StackID::Account(id)) {
                let i = choose|i: int| 0 <= i < accounts@.len() && (#[trigger] accounts@[i]).0 == id;
                assert(among(accounts@, accounts@.len() as int, id));
            }
            if among(accounts@, accounts@.len() as int, id) {
                let i = choose|i: int| 0 <= i < accounts@.len() && (#[trigger] accounts@[i]).0 == id;
            }
        }
        assert forall|id: ID| past_of(history@).dom().contains(id) == goal.dom().contains(id) by {}
        assert forall|id: ID| past_of(history@).dom().contains(id) implies (#[trigger] past_of(
            history@,
        )[id]) == goal[id] by {}
        assert(past_of(history@) =~= goal);
    }
}

/// The replay of a list of events over a range of days.
#[derive(Debug)]
pub struct Timeline<'e, M: Money> {
    stack: Stack<M>,
    interner: Interner,
    events: &'e Vec<Event<M>>,
    datestamps: Vec<Datestamp>,
    history: Histories<M>,
}

impl<'e, M: Money> Timeline<'e, M> {
    /// What the run has come to.
    pub closed spec fn run(&self) -> Run<M> {
        Run { books: self.stack@, dates: self.datestamps@, past: past_of(self.history@) }
    }

    /// The identifiers that the timeline resolves scopes with.
    pub closed spec fn symbols(&self) -> Symbols {
        self.stack.symbols()
    }

    /// The names of the accounts.
    pub closed spec fn names(&self) -> Seq<Seq<char>> {
        interned(self.interner)
    }

    /// The events that the timeline replays.
    pub closed spec fn events(&self) -> Seq<Event<M>> {
        self.events@
    }

    /// The histories as they are kept.
    pub closed spec fn histories(&self) -> Map<u32, (Datestamp, Vec<M>)> {
        self.history@
    }

    /// The invariant of the timeline: no scope is active between firings,
    /// every event can be run and names an account, each account that has
    /// a balance has one history, and every history ends with the latest
    /// firing.
    pub closed spec fn wf(&self) -> bool {
        &&& self.stack.wf()
        &&& self.stack@.frames.len() == 0
        &&& forall|i: int|
            0 <= i < self.events@.len() ==> (#[trigger] self.events@[i]).scoped(
                self.stack.symbols(),
                0,
            ) && self.events@[i].accounts@.len() > 0
        &&& forall|id: ID|
            #![trigger past_of(self.history@).dom().contains(id)]
            past_of(self.history@).dom().contains(id) == self.stack@.balances.dom().contains(
                StackID::Account(id),
            )
        &&& aligned(past_of(self.history@), self.datestamps@)
    }

    /// A timeline for `events`, with the names of their accounts in
    /// `interner`. Nothing has fired yet.
    pub fn new(events: &'e Vec<Event<M>>, interner: Interner) -> (timeline: Timeline<'e, M>)
        requires
            interned(interner).len() + 3 <= u32::MAX,
            forall|i: int|
                0 <= i < events@.len() ==> (#[trigger] events@[i]).scoped(
                    reserved(interned(interner)),
                    0,
                ) && events@[i].accounts@.len() > 0,
        ensures
            timeline.wf(),
            timeline.events() == events@,
            timeline.symbols() == reserved(interned(interner)),
            timeline.names() == with_name(
                with_name(with_name(interned(interner), "new"@), "self"@),
                "super"@,
            ),
            timeline.run().books.frames == Seq::<StackID>::empty(),
            timeline.run().books.balances == Map::<StackID, M>::empty(),
            timeline.run().dates == Seq::<Datestamp>::empty(),
            timeline.run().past == Map::<ID, (Datestamp, Seq<M>)>::empty(),
    {
        let mut interner = interner;
        let symbols = Symbols::new(&mut interner);
        let stack = Stack::new(symbols);
        let timeline = Timeline {
            stack,
            interner,
            events,
            datestamps: Vec::new(),
            history: HashMap::new(),
        };
        proof {
            assert(past_of(timeline.history@) =~= Map::<ID, (Datestamp, Seq<M>)>::empty());
        }
        timeline
    }

    /// As [`Timeline::new`], or `None` where the table of names has no room
    /// for three more or one of the events cannot be run or names no
    /// account.
    pub fn try_new(events: &'e Vec<Event<M>>, interner: Interner) -> (timeline: Option<
        Timeline<'e, M>,
    >)
        ensures
            timeline.is_some() == (interned(interner).len() + 3 <= u32::MAX && forall|i: int|
                0 <= i < events@.len() ==> (#[trigger] events@[i]).scoped(
                    reserved(interned(interner)),
                    0,
                ) && events@[i].accounts@.len() > 0),
            timeline.is_some() ==> {
                &&& timeline.unwrap().wf()
                &&& timeline.unwrap().events() == events@
                &&& timeline.unwrap().symbols() == reserved(interned(interner))
                &&& timeline.unwrap().names() == with_name(
                    with_name(with_name(interned(interner), "new"@), "self"@),
                    "super"@,
                )
                &&& timeline.unwrap().run().books.frames == Seq::<StackID>::empty()
                &&& timeline.unwrap().run().dates == Seq::<Datestamp>::empty()
                &&& timeline.unwrap().run().past == Map::<ID, (Datestamp, Seq<M>)>::empty()
                &&& timeline.unwrap().run().books.balances == Map::<StackID, M>::empty()
            },
    {
        let ghost names = interned(interner);
        let mut table = interner;
        let symbols = match Symbols::try_new(&mut table) {
            Some(symbols) => symbols,
            None => {
                return None;
            },
        };
        assert(symbols == reserved(names));
        let mut place: usize = 0;
        while place < events.len()
            invariant
                place <= events@.len(),
                names == interned(interner),
                names.len() + 3 <= u32::MAX,
                symbols == reserved(names),
                forall|i: int|
                    0 <= i < place ==> (#[trigger] events@[i]).scoped(symbols, 0)
                        && events@[i].accounts@.len() > 0,
            decreases events@.len() - place,
        {
            if !events[place].is_scoped(&symbols, 0) || events[place].accounts.len() == 0 {
                return None;
            }
            place += 1;
        }
        let stack = Stack::new(symbols);
        let timeline = Timeline {
            stack,
            interner: table,
            events,
            datestamps: Vec::new(),
            history: HashMap::new(),
        };
        proof {
            assert(past_of(timeline.history@) =~= Map::<ID, (Datestamp, Seq<M>)>::empty());
        }
        Some(timeline)
    }

    /// Every firing from `from` up to, and without, `to`, each with the place
    /// of its event: in the order of the days, and those of one day in the
    /// order of the events. Nothing is replayed.
    pub fn queue(&self, from: Datestamp, to: Datestamp) -> (queue: Vec<Firing>)
        ensures
            queue@ == agenda(schedules_of(self.events()), from@, to@),
            forall|place: int|
                0 <= place < queue@.len() ==> (#[trigger] queue@[place]).1 < self.events().len(),
    {
        Event::timeline(self.events, from, to)
    }

    /// Replays one firing: runs its event on the books, adds its day to the
    /// days and notes the balance of every account. The firing is reported.
    ///
    /// A run is driven firing by firing with this: a caller that takes the
    /// firings of [`Timeline::queue`] one at a time may stop after any of
    /// them.
    pub fn step(&mut self, firing: Firing) -> (moment: Moment<'e, M>)
        requires
            old(self).wf(),
            firing.1 < old(self).events().len(),
        ensures
            final(self).wf(),
            final(self).events() == old(self).events(),
            final(self).symbols() == old(self).symbols(),
            final(self).names() == old(self).names(),
            final(self).run() == stepped(
                old(self).run(),
                old(self).symbols(),
                &old(self).events()[firing.1 as int],
                firing.0,
            ),
            moment == reported(old(self).events(), firing),
    {
        let (date, index) = firing;
        let events = self.events;
        let event = &events[index];
        let ghost before = self.run();
        let ghost symbols = self.symbols();
        proof {
            process::lemma_event_keeps(event, event.accounts@.len(), symbols, self.stack@);
        }
        process::event(event, &mut self.stack);
        self.datestamps.push(date);
        snapshot(&mut self.history, &self.stack, date);
        proof {
            assert(self.run() == stepped(before, symbols, event, date));
            let past = past_of(self.history@);
            let dates = self.datestamps@;
            assert forall|id: ID| #![trigger past[id]] past.dom().contains(id) implies 0
                < past[id].1.len() <= dates.len() && dates[dates.len() - past[id].1.len()]
                == past[id].0 by {
                if before.past.dom().contains(id) {
                    assert(before.books.balances.dom().contains(StackID::Account(id)));
                    assert(self.stack@.balances.dom().contains(StackID::Account(id)));
                    let earlier = before.past[id];
                    assert(0 < earlier.1.len() <= before.dates.len());
                }
            }
        }
        Moment {
            date,
            transaction: Source {
                date,
                from: event.accounts[0],
                to: event.accounts[0],
                amount: M::ratio(100, 1),
                label: None,
            },
        }
    }

    /// Replays every firing from `from` up to, and without, `to`, in the
    /// order of the days, and those of one day in the order of the events.
    ///
    /// Each firing runs its event on the books, adds its day to the days
    /// and notes the balance of every account. The firings are reported in
    /// the order in which they were replayed.
    pub fn process(&mut self, from: Datestamp, to: Datestamp) -> (moments: Vec<Moment<'e, M>>)
        requires
            old(self).wf(),
        ensures
            final(self).wf(),
            final(self).events() == old(self).events(),
            final(self).symbols() == old(self).symbols(),
            final(self).names() == old(self).names(),
            final(self).run() == replayed(
                old(self).run(),
                old(self).symbols(),
                old(self).events(),
                agenda(schedules_of(old(self).events()), from@, to@),
                agenda(schedules_of(old(self).events()), from@, to@).len(),
            ),
            moments@.len() == agenda(schedules_of(old(self).events()), from@, to@).len(),
            forall|place: int|
                0 <= place < moments@.len() ==> #[trigger] moments@[place] == reported(
                    old(self).events(),
                    agenda(schedules_of(old(self).events()), from@, to@)[place],
                ),
    {
        let queue = self.queue(from, to);
        let ghost start = self.run();
        let ghost symbols = self.symbols();
        let ghost events = self.events();
        let mut moments: Vec<Moment<'e, M>> = Vec::new();
        let mut done: usize = 0;
        while done < queue.len()
            invariant
                self.wf(),
                self.events() == events,
                events == old(self).events(),
                self.symbols() == symbols,
                self.names() == old(self).names(),
                done <= queue@.len(),
                forall|place: int|
                    0 <= place < queue@.len() ==> (#[trigger] queue@[place]).1 < events.len(),
                self.run() == replayed(start, symbols, events, queue@, done as nat),
                moments@.len() == done,
                forall|place: int|
                    0 <= place < done ==> #[trigger] moments@[place] == reported(
                        events,
                        queue@[place],
                    ),
            decreases queue@.len() - done,
        {
            let moment = self.step(queue[done]);
            moments.push(moment);
            done += 1;
        }
        moments
    }

    /// The day of every firing that was replayed, in the order of the
    /// replay.
    pub fn dates(&self) -> (dates: &Vec<Datestamp>)
        ensures
            dates@ == self.run().dates,
    {
        &self.datestamps
    }

    /// The histories of the accounts, each under the place of the name of
    /// its account.
    pub fn history(&self) -> (history: &Histories<M>)
        ensures
            history@ == self.histories(),
            past_of(history@) == self.run().past,
    {
        &self.history
    }

    /// The balance that each named account has now.
    pub fn balances(&self) -> (accounts: Vec<(ID, M)>)
        requires
            self.wf(),
        ensures
            forall|i: int|
                0 <= i < accounts@.len() ==> self.run().books.balances.dom().contains(
                    StackID::Account((#[trigger] accounts@[i]).0),
                ) && self.run().books.balances[StackID::Account(accounts@[i].0)] == accounts@[i].1,
            forall|id: ID|
                self.run().books.balances.dom().contains(StackID::Account(id)) ==> exists|i: int|
                    0 <= i < accounts@.len() && (#[trigger] accounts@[i]).0 == id,
            forall|i: int, j: int|
                0 <= i < j < accounts@.len() ==> accounts@[i].0 != accounts@[j].0,
    {
        self.stack.balances()
    }

    /// Every history ends with the latest firing: a history that was begun
    /// at the firing at some place of the run holds one balance for that
    /// firing and one for each firing after it.
    pub proof fn lemma_history_aligned(&self, id: ID)
        requires
            self.wf(),
            self.run().past.dom().contains(id),
        ensures
            0 < self.run().past[id].1.len() <= self.run().dates.len(),
            self.run().dates[self.run().dates.len() - self.run().past[id].1.len()]
                == self.run().past[id].0,
    {
        let past = past_of(self.history@);
        assert(0 < past[id].1.len());
    }

    /// The balances of an account over the whole run: nothing for every
    /// firing before the account was first booked on, then its history.
    /// `None` for an account that has no history.
    pub fn padded(&self, account: ID) -> (balances: Option<Vec<M>>)
        requires
            self.wf(),
        ensures
            balances.is_some() == self.run().past.dom().contains(account),
            balances.is_some() ==> balances.unwrap()@ == Seq::new(
                (self.run().dates.len() - self.run().past[account].1.len()) as nat,
                |i: int| M::nil(),
            ) + self.run().past[account].1,
            balances.is_some() ==> balances.unwrap()@.len() == self.run().dates.len(),
    {
        broadcast use group_hash_axioms;

        let entry = match self.history.get(&account.index) {
            Some(entry) => entry,
            None => {
                return None;
            },
        };
        proof {
            let past = past_of(self.history@);
            assert(past.dom().contains(account));
            assert(0 < past[account].1.len() <= self.datestamps@.len());
        }
        let missing: usize = self.datestamps.len() - entry.1.len();
        let mut balances: Vec<M> = Vec::new();
        while balances.len() < missing
            invariant
                balances@.len() <= missing,
                balances@ == Seq::new(balances@.len(), |i: int| M::nil()),
            decreases missing - balances@.len(),
        {
            balances.push(M::zero());
            proof {
                assert(balances@ =~= Seq::new(balances@.len(), |i: int| M::nil()));
            }
        }
        let mut copied: usize = 0;
        while copied < entry.1.len()
            invariant
                copied <= entry.1@.len(),
                balances@ == Seq::new(missing as nat, |i: int| M::nil()) + entry.1@.take(
                    copied as int,
                ),
            decreases entry.1@.len() - copied,
        {
            balances.push(entry.1[copied]);
            copied += 1;
            proof {
                assert(balances@ =~= Seq::new(missing as nat, |i: int| M::nil())
                    + entry.1@.take(copied as int));
            }
        }
        proof {
            assert(entry.1@.take(copied as int) =~= entry.1@);
        }
        Some(balances)
    }
}

/// What can be shown by name in place of identifiers.
pub trait Resolve<'a, T> {
    /// What `index` is shown as.
    type Output;

    fn resolve(&'a self, index: T) -> Self::Output;
}

impl<'a, 'e, M: Money> Resolve<'a, ID> for Timeline<'e, M> {
    type Output = Option<&'a str>;

    /// The name of an account, where the table of names holds one for it.
    fn resolve(&'a self, index: ID) -> (name: Option<&'a str>)
        ensures
            match name {
                Some(name) => index.index < self.names().len() && name@
                    == self.names()[index.index as int],
                None => index.index >= self.names().len(),
            },
    {
        self.interner.resolve(index)
    }
}

impl<'a, 'e, 's, M: Money> Resolve<'a, &'s Source<'e, M>> for Timeline<'e, M> {
    type Output = Option<NameView<'a, 'e, M>>;

    /// A transfer with the names of its accounts, where the table of names
    /// holds both.
    fn resolve(&'a self, index: &'s Source<'e, M>) -> (view: Option<NameView<'a, 'e, M>>)
        ensures
            view.is_some() == index.named_in(self.names()),
            view.is_some() ==> {
                &&& view.unwrap().date == index.date
                &&& view.unwrap().from@ == self.names()[index.from.index as int]
                &&& view.unwrap().to@ == self.names()[index.to.index as int]
                &&& view.unwrap().amount == index.amount
                &&& view.unwrap().label == index.label
            },
    {
        index.as_view(&self.interner)
    }
}

impl<'a, 'e, M: Money> Resolve<'a, &'a Vec<(ID, M)>> for Timeline<'e, M> {
    type Output = Option<Vec<(&'a str, M)>>;

    /// The balances with the name of each account: `None` where the table
    /// of names holds none for one of the accounts.
    fn resolve(&'a self, index: &'a Vec<(ID, M)>) -> (named: Option<Vec<(&'a str, M)>>)
        ensures
            named.is_some() == forall|i: int|
                0 <= i < index@.len() ==> (#[trigger] index@[i]).0.index < self.names().len(),
            named.is_some() ==> named.unwrap()@.len() == index@.len() && forall|i: int|
                0 <= i < index@.len() ==> (#[trigger] named.unwrap()@[i]).0@
                    == self.names()[index@[i].0.index as int] && named.unwrap()@[i].1
                    == index@[i].1,
    {
        let mut named: Vec<(&'a str, M)> = Vec::new();
        let mut place: usize = 0;
        while place < index.len()
            invariant
                place <= index@.len(),
                named@.len() == place,
                forall|i: int| 0 <= i < place ==> (#[trigger] index@[i]).0.index < self.names().len(),
                forall|i: int|
                    0 <= i < place ==> (#[trigger] named@[i]).0@
                        == self.names()[index@[i].0.index as int] && named@[i].1 == index@[i].1,
            decreases index@.len() - place,
        {
            match self.interner.resolve(index[place].0) {
                Some(name) => {
                    named.push((name, index[place].1));
                },
                None => {
                    return None;
                },
            }
            place += 1;
        }
        Some(named)
    }
}

impl<'e, M: Money> Timeline<'e, M> {
    /// The histories with the name of each account, each account once:
    /// `None` where the table of names holds none for one of the accounts.
    pub fn named_history<'a>(&'a self) -> (named: Option<
        Vec<(ID, &'a str, Datestamp, &'a Vec<M>)>,
    >)
        requires
            self.wf(),
        ensures
            named.is_some() == forall|index: u32|
                #[trigger] self.histories().contains_key(index) ==> index < self.names().len(),
            named.is_some() ==> forall|i: int|
                0 <= i < named.unwrap()@.len() ==> shown(
                    self.names(),
                    self.histories(),
                    #[trigger] named.unwrap()@[i],
                ),
            named.is_some() ==> forall|index: u32|
                #[trigger] self.histories().contains_key(index) ==> holds_account(
                    named.unwrap()@,
                    index,
                ),
            named.is_some() ==> forall|i: int, j: int|
                0 <= i < j < named.unwrap()@.len() ==> named.unwrap()@[i].0 != named.unwrap()@[j].0,
    {
        broadcast use group_hash_axioms;

        let mut named: Vec<(ID, &'a str, Datestamp, &'a Vec<M>)> = Vec::new();
        let accounts = self.stack.balances();
        let mut place: usize = 0;
        proof {
            assert forall|at: int| 0 <= at < accounts@.len() implies self.history@.contains_key(
                (#[trigger] accounts@[at]).0.index,
            ) by {
                assert(self.stack@.balances.dom().contains(StackID::Account(accounts@[at].0)));
                assert(past_of(self.history@).dom().contains(accounts@[at].0));
            }
        }
        while place < accounts.len()
            invariant
                place <= accounts@.len(),
                named@.len() == place,
                forall|at: int|
                    0 <= at < accounts@.len() ==> self.history@.contains_key(
                        (#[trigger] accounts@[at]).0.index,
                    ),
                forall|i: int|
                    0 <= i < place ==> (#[trigger] named@[i]).0 == accounts@[i].0 && shown(
                        self.names(),
                        self.history@,
                        named@[i],
                    ),
            decreases accounts@.len() - place,
        {
            let id = accounts[place].0;
            assert(self.history@.contains_key(accounts@[place as int].0.index));
            let name = match self.interner.resolve(id) {
                Some(name) => name,
                None => {
                    assert(self.histories().contains_key(id.index));
                    assert(id.index >= self.names().len());
                    return None;
                },
            };
            match self.history.get(&id.index) {
                Some(entry) => {
                    named.push((id, name, entry.0, &entry.1));
                },
                None => {
                    assert(false);
                },
            }
            place += 1;
        }
        proof {
            assert(self.histories() == self.history@);
            assert forall|index: u32| #[trigger] self.histories().contains_key(index) implies
                holds_account(named@, index) && index < self.names().len() by {
                let id = ID { index };
                assert(past_of(self.history@).dom().contains(id));
                assert(self.stack@.balances.dom().contains(StackID::Account(id)));
                let at = choose|at: int|
                    0 <= at < accounts@.len() && (#[trigger] accounts@[at]).0 == id;
                assert(named@[at].0 == id);
                assert(shown(self.names(), self.history@, named@[at]));
            }
        }
        Some(named)
    }
}

/// Whether one of `entries` is for the account whose name is at `index`.
pub open spec fn holds_account<M>(entries: Seq<(ID, &str, Datestamp, &Vec<M>)>, index: u32) -> bool {
    exists|i: int| 0 <= i < entries.len() && (#[trigger] entries[i]).0.index == index
}

/// Whether `entry` shows the history that `histories` hold of its
/// account, under the name that `names` hold for it.
pub open spec fn shown<M>(
    names: Seq<Seq<char>>,
    histories: Map<u32, (Datestamp, Vec<M>)>,
    entry: (ID, &str, Datestamp, &Vec<M>),
) -> bool {
    &&& histories.contains_key(entry.0.index)
    &&& entry.0.index < names.len()
    &&& entry.1@ == names[entry.0.index as int]
    &&& entry.2 == histories[entry.0.index].0
    &&& entry.3@ == histories[entry.0.index].1@
}

} // verus!
