//! Balances by key.

use crate::money::Money;
use std::collections::HashMap;
use vstd::prelude::*;
use vstd::std_specs::hash::*;

verus! {

/// The identifier of a declared account name.
#[derive(Clone, Copy, Debug, PartialEq, Eq, Hash, Structural)]
pub struct ID {
    /// The place of the name among the interned names.
    pub index: u32,
}

/// What a balance is kept under.
#[derive(Clone, Copy, Debug, PartialEq, Eq, Hash, Structural)]
pub enum StackID {
    /// The balance that belongs to the scope at a depth of the stack.
    Layer(usize),
    /// The lasting balance of a named account.
    Account(ID),
}

/// The number that a key is kept under: even for the balance of a scope,
/// odd for the balance of an account.
pub open spec fn code(key: StackID) -> u128 {
    match key {
        StackID::Layer(depth) => (depth * 2) as u128,
        StackID::Account(id) => (id.index * 2 + 1) as u128,
    }
}

/// Different keys are kept under different numbers.
pub proof fn lemma_code_tells_apart(first: StackID, second: StackID)
    requires
        code(first) == code(second),
    ensures
        first == second,
{
}

/// The number that a key is kept under.
fn code_of(key: StackID) -> (number: u128)
    ensures
        number == code(key),
{
    match key {
        StackID::Layer(depth) => (depth as u128) * 2,
        StackID::Account(id) => (id.index as u128) * 2 + 1,
    }
}

/// Balances kept under keys: the balances in a hash map, the keys also in
/// the order in which they first appeared.
///
/// The view is the map from each key that was ever booked on to its balance.
#[derive(Debug)]
pub struct Ledger<M: Money> {
    keys: Vec<StackID>,
    amounts: HashMap<u128, M>,
}

impl<M: Money> View for Ledger<M> {
    type V = Map<StackID, M>;

    closed spec fn view(&self) -> Map<StackID, M> {
        Map::new(|key: StackID| self.keys@.contains(key), |key: StackID| self.amounts@[code(key)])
    }
}

/// The balance under `key` in `balances`: nothing where the key was never
/// booked on.
pub open spec fn balance_in<M: Money>(balances: Map<StackID, M>, key: StackID) -> M {
    if balances.dom().contains(key) {
        balances[key]
    } else {
        M::nil()
    }
}

impl<M: Money> Ledger<M> {
    /// No key is kept twice, and the balances are those of the keys.
    pub closed spec fn wf(&self) -> bool {
        &&& self.keys@.no_duplicates()
        &&& forall|place: int|
            0 <= place < self.keys@.len() ==> self.amounts@.contains_key(
                code(#[trigger] self.keys@[place]),
            )
        &&& forall|number: u128| #[trigger]
            self.amounts@.contains_key(number) ==> exists|place: int|
                0 <= place < self.keys@.len() && code(#[trigger] self.keys@[place]) == number
    }

    /// The number of keys.
    pub closed spec fn count(&self) -> nat {
        self.keys@.len()
    }

    /// The key at a place.
    pub closed spec fn key_at(&self, place: int) -> StackID {
        self.keys@[place]
    }

    /// Whether `key` is at one of the first `places` places.
    pub open spec fn seen(&self, places: int, key: StackID) -> bool {
        exists|place: int| 0 <= place < places && #[trigger] self.key_at(place) == key
    }

    /// The balance under `key`: nothing where the key was never booked on.
    pub open spec fn balance(&self, key: StackID) -> M {
        balance_in(self@, key)
    }

    /// The keys of a ledger are those at its places, each at one place.
    pub proof fn lemma_places(&self)
        requires
            self.wf(),
        ensures
            forall|place: int|
                0 <= place < self.count() ==> self@.dom().contains(#[trigger] self.key_at(place)),
            forall|key: StackID|
                self@.dom().contains(key) ==> exists|place: int|
                    0 <= place < self.count() && #[trigger] self.key_at(place) == key,
            forall|first: int, second: int|
                0 <= first < second < self.count() ==> self.key_at(first) != self.key_at(second),
    {
        assert forall|key: StackID| self@.dom().contains(key) implies exists|place: int|
            0 <= place < self.count() && #[trigger] self.key_at(place) == key by {
            let place = choose|place: int| 0 <= place < self.keys@.len() && self.keys@[place] == key;
            assert(self.key_at(place) == key);
        }
    }

    /// A key is kept exactly when its number is.
    proof fn lemma_kept(&self, key: StackID)
        requires
            self.wf(),
        ensures
            self.keys@.contains(key) == self.amounts@.contains_key(code(key)),
    {
        if self.amounts@.contains_key(code(key)) {
            let place = choose|place: int|
                0 <= place < self.keys@.len() && code(#[trigger] self.keys@[place]) == code(key);
            lemma_code_tells_apart(self.keys@[place], key);
        }
        if self.keys@.contains(key) {
            let place = choose|place: int| 0 <= place < self.keys@.len() && self.keys@[place] == key;
            assert(self.amounts@.contains_key(code(self.keys@[place])));
        }
    }

    /// A ledger that nothing was booked on.
    pub fn new() -> (ledger: Ledger<M>)
        ensures
            ledger.wf(),
            ledger@ == Map::<StackID, M>::empty(),
    {
        let ledger = Ledger { keys: Vec::new(), amounts: HashMap::new() };
        assert(ledger@ =~= Map::<StackID, M>::empty());
        ledger
    }

    /// The number of keys.
    pub fn len(&self) -> (count: usize)
        requires
            self.wf(),
        ensures
            count == self.count(),
    {
        self.keys.len()
    }

    /// The key at a place and its balance.
    pub fn entry(&self, place: usize) -> (entry: (StackID, M))
        requires
            self.wf(),
            place < self.count(),
        ensures
            entry.0 == self.key_at(place as int),
            self@.dom().contains(entry.0),
            self@[entry.0] == entry.1,
    {
        broadcast use group_hash_axioms;

        let key = self.keys[place];
        proof {
            assert(self.keys@.contains(self.keys@[place as int]));
            assert(self.amounts@.contains_key(code(self.keys@[place as int])));
        }
        let amount = match self.amounts.get(&code_of(key)) {
            Some(amount) => *amount,
            None => M::zero(),
        };
        (key, amount)
    }

    /// Whether `key` was ever booked on.
    pub fn holds(&self, key: StackID) -> (held: bool)
        requires
            self.wf(),
        ensures
            held == self@.dom().contains(key),
    {
        broadcast use group_hash_axioms;

        proof {
            self.lemma_kept(key);
        }
        self.amounts.contains_key(&code_of(key))
    }

    /// The balance under `key`: nothing where the key was never booked on.
    pub fn get(&self, key: StackID) -> (amount: M)
        requires
            self.wf(),
        ensures
            amount == self.balance(key),
    {
        broadcast use group_hash_axioms;

        proof {
            self.lemma_kept(key);
        }
        match self.amounts.get(&code_of(key)) {
            Some(amount) => *amount,
            None => M::zero(),
        }
    }

    /// Puts `amount` under `key`, whatever was there.
    pub fn set(&mut self, key: StackID, amount: M)
        requires
            old(self).wf(),
        ensures
            final(self).wf(),
            final(self)@ == old(self)@.insert(key, amount),
    {
        broadcast use group_hash_axioms;

        let number = code_of(key);
        proof {
            self.lemma_kept(key);
        }
        if !self.amounts.contains_key(&number) {
            self.keys.push(key);
        }
        self.amounts.insert(number, amount);
        proof {
            let before = old(self).keys@;
            let after = self.keys@;
            assert forall|other: StackID| after.contains(other) == (before.contains(other) || other
                == key) by {
                if before.contains(other) {
                    let at = choose|at: int| 0 <= at < before.len() && before[at] == other;
                    assert(after[at] == other);
                }
                if other == key && !before.contains(key) {
                    assert(after[before.len() as int] == key);
                }
                if after.contains(other) {
                    let at = choose|at: int| 0 <= at < after.len() && after[at] == other;
                    if at < before.len() {
                        assert(before[at] == other);
                    }
                }
            }
            assert(after.no_duplicates()) by {
                assert forall|i: int, j: int| 0 <= i < after.len() && 0 <= j < after.len() && i
                    != j implies after[i] != after[j] by {
                    if i < before.len() && j < before.len() {
                        assert(before[i] != before[j]);
                    } else if i < before.len() {
                        assert(before.contains(before[i]));
                    } else if j < before.len() {
                        assert(before.contains(before[j]));
                    }
                }
            }
            assert forall|place: int| 0 <= place < after.len() implies self.amounts@.contains_key(
                code(#[trigger] after[place]),
            ) by {
                if place < before.len() {
                    assert(old(self).amounts@.contains_key(code(before[place])));
                }
            }
            assert forall|other: u128| #[trigger]
                self.amounts@.contains_key(other) implies exists|place: int|
                0 <= place < after.len() && code(#[trigger] after[place]) == other by {
                if other == number {
                    assert(after.contains(key));
                    let at = choose|at: int| 0 <= at < after.len() && after[at] == key;
                    assert(code(after[at]) == other);
                } else {
                    assert(old(self).amounts@.contains_key(other));
                    let at = choose|at: int|
                        0 <= at < before.len() && code(#[trigger] before[at]) == other;
                    assert(code(after[at]) == other);
                }
            }
            assert forall|other: StackID| after.contains(other) implies (#[trigger] self@[other])
                == old(self)@.insert(key, amount)[other] by {
                if other != key {
                    if code(other) == number {
                        lemma_code_tells_apart(other, key);
                    }
                }
            }
            assert(self@ =~= old(self)@.insert(key, amount));
        }
    }

    /// Adds `amount` to the balance under `key`, which starts from nothing
    /// where the key was never booked on.
    pub fn credit(&mut self, key: StackID, amount: M)
        requires
            old(self).wf(),
        ensures
            final(self).wf(),
            final(self)@ == old(self)@.insert(key, old(self).balance(key).plus(amount)),
    {
        let raised = self.get(key).sum(amount);
        self.set(key, raised);
    }

    /// Takes `amount` from the balance under `key`, which starts from nothing
    /// where the key was never booked on.
    pub fn debit(&mut self, key: StackID, amount: M)
        requires
            old(self).wf(),
        ensures
            final(self).wf(),
            final(self)@ == old(self)@.insert(key, old(self).balance(key).minus(amount)),
    {
        let lowered = self.get(key).difference(amount);
        self.set(key, lowered);
    }

    /// A ledger with the same keys and balances.
    pub fn duplicate(&self) -> (copy: Ledger<M>)
        requires
            self.wf(),
        ensures
            copy.wf(),
            copy@ == self@,
    {
        let mut copy: Ledger<M> = Ledger::new();
        let mut place: usize = 0;
        proof {
            self.lemma_places();
        }
        while place < self.keys.len()
            invariant
                self.wf(),
                copy.wf(),
                place <= self.keys@.len(),
                forall|key: StackID|
                    #![trigger copy@.dom().contains(key)]
                    copy@.dom().contains(key) == self.seen(place as int, key),
                forall|key: StackID|
                    #![trigger copy@[key]]
                    copy@.dom().contains(key) ==> copy@[key] == self@[key],
            decreases self.keys@.len() - place,
        {
            let ghost before = copy@;
            let (key, amount) = self.entry(place);
            copy.set(key, amount);
            proof {
                assert forall|other: StackID|
                    self.seen(place + 1, other) == (self.seen(place as int, other) || other
                        == key) by {
                    if other == key {
                        assert(self.key_at(place as int) == key);
                    }
                    if self.seen(place as int, other) {
                        let at = choose|at: int|
                            0 <= at < place && #[trigger] self.key_at(at) == other;
                        assert(0 <= at < place + 1);
                    }
                }
                assert forall|other: StackID|
                    #![trigger copy@.dom().contains(other)]
                    copy@.dom().contains(other) == self.seen(place + 1, other) by {
                    assert(before.dom().contains(other) == self.seen(place as int, other));
                }
                assert forall|other: StackID|
                    #![trigger copy@[other]]
                    copy@.dom().contains(other) implies copy@[other] == self@[other] by {
                    if other != key {
                        assert(before.dom().contains(other));
                        assert(before[other] == self@[other]);
                    }
                }
            }
            place += 1;
        }
        proof {
            assert forall|key: StackID| copy@.dom().contains(key) == self@.dom().contains(key) by {
                if self@.dom().contains(key) {
                    let at = choose|at: int|
                        0 <= at < self.count() && #[trigger] self.key_at(at) == key;
                    assert(self.seen(place as int, key));
                }
                if self.seen(place as int, key) {
                    let at = choose|at: int| 0 <= at < place && #[trigger] self.key_at(at) == key;
                }
            }
            assert(copy@ =~= self@);
        }
        copy
    }
}

} // verus!
