//! Accounts: their names, and the stack of scopes that holds their balances.

use crate::ledger::{balance_in, Ledger, StackID, ID};
use crate::money::Money;
use vstd::prelude::*;

verus! {

/// The table of account names: a `string_interner::DefaultStringInterner`.
///
/// Each name that the table holds has an identifier, the place at which
/// [`interned`] lists it.
#[verifier::external_body]
#[derive(Debug)]
pub struct Interner {
    names: string_interner::DefaultStringInterner,
}

/// The names that a table holds, each at the place that its identifier
/// gives.
pub uninterp spec fn interned(interner: Interner) -> Seq<Seq<char>>;

/// The place of `name` among `names`, where it is one of them.
pub open spec fn place_of(names: Seq<Seq<char>>, name: Seq<char>) -> Option<int> {
    names.index_of_first(name)
}

/// Calls `StringInterner::new`, which makes a table without names.
#[verifier::external_body]
fn empty_table() -> (interner: Interner)
    ensures
        interned(interner) == Seq::<Seq<char>>::empty(),
{
    Interner { names: string_interner::DefaultStringInterner::new() }
}

/// Calls `StringInterner::len`: the number of names in the table.
#[verifier::external_body]
fn count_names(interner: &Interner) -> (count: usize)
    ensures
        count == interned(*interner).len(),
{
    interner.names.len()
}

/// Calls `StringInterner::get`: the identifier of a name that the table
/// holds, `None` for any other.
#[verifier::external_body]
fn find_name(interner: &Interner, name: &str) -> (id: Option<ID>)
    ensures
        match id {
            Some(id) => place_of(interned(*interner), name@) == Some(id.index as int),
            None => !interned(*interner).contains(name@),
        },
{
    interner.names.get(name).map(
        |symbol| ID { index: string_interner::Symbol::to_usize(symbol) as u32 },
    )
}

/// Calls `StringInterner::get_or_intern`: the identifier of a name that the
/// table holds already; a name that it does not hold is added behind the
/// others. The call panics once the table holds as many names as there are
/// identifiers.
#[verifier::external_body]
fn intern_name(interner: &mut Interner, name: &str) -> (id: ID)
    requires
        interned(*old(interner)).len() < u32::MAX,
    ensures
        interned(*final(interner)) == if interned(*old(interner)).contains(name@) {
            interned(*old(interner))
        } else {
            interned(*old(interner)).push(name@)
        },
        place_of(interned(*final(interner)), name@) == Some(id.index as int),
{
    ID { index: string_interner::Symbol::to_usize(interner.names.get_or_intern(name)) as u32 }
}

/// Calls `StringInterner::resolve`: the name that an identifier stands for,
/// `None` where the table holds no name at that place.
#[verifier::external_body]
fn name_at<'a>(interner: &'a Interner, id: ID) -> (name: Option<&'a str>)
    ensures
        match name {
            Some(name) => id.index < interned(*interner).len() && name@ == interned(
                *interner,
            )[id.index as int],
            None => id.index >= interned(*interner).len(),
        },
{
    let symbol: string_interner::DefaultSymbol = string_interner::Symbol::try_from_usize(
        id.index as usize,
    )?;
    interner.names.resolve(symbol)
}

impl Interner {
    /// A table without names.
    pub fn new() -> (interner: Interner)
        ensures
            interned(interner) == Seq::<Seq<char>>::empty(),
    {
        empty_table()
    }

    /// The number of names in the table.
    pub fn len(&self) -> (count: usize)
        ensures
            count == interned(*self).len(),
    {
        count_names(self)
    }

    /// The identifier of `name`, where the table holds it.
    pub fn get(&self, name: &str) -> (id: Option<ID>)
        ensures
            match id {
                Some(id) => place_of(interned(*self), name@) == Some(id.index as int),
                None => !interned(*self).contains(name@),
            },
    {
        find_name(self, name)
    }

    /// The identifier of `name`, which is added to the table unless it is
    /// there already.
    pub fn get_or_intern(&mut self, name: &str) -> (id: ID)
        requires
            interned(*old(self)).len() < u32::MAX,
        ensures
            interned(*final(self)) == if interned(*old(self)).contains(name@) {
                interned(*old(self))
            } else {
                interned(*old(self)).push(name@)
            },
            place_of(interned(*final(self)), name@) == Some(id.index as int),
    {
        intern_name(self, name)
    }

    /// The identifier of `name` as [`Interner::get_or_intern`] gives it, or
    /// `None`, with the table as it was, where the table is full.
    pub fn try_intern(&mut self, name: &str) -> (id: Option<ID>)
        ensures
            id.is_some() == (interned(*old(self)).len() < u32::MAX),
            id.is_none() ==> interned(*final(self)) == interned(*old(self)),
            id.is_some() ==> interned(*final(self)) == if interned(*old(self)).contains(name@) {
                interned(*old(self))
            } else {
                interned(*old(self)).push(name@)
            } && place_of(interned(*final(self)), name@) == Some(id.unwrap().index as int),
    {
        if self.len() < u32::MAX as usize {
            Some(self.get_or_intern(name))
        } else {
            None
        }
    }

    /// The name that `id` stands for, where the table holds one at that
    /// place.
    pub fn resolve(&self, id: ID) -> (name: Option<&str>)
        ensures
            match name {
                Some(name) => id.index < interned(*self).len() && name@ == interned(*self)[id.index as int],
                None => id.index >= interned(*self).len(),
            },
    {
        name_at(self, id)
    }
}

/// The names with `name` among them: added behind the others unless it is
/// there already.
pub open spec fn with_name(names: Seq<Seq<char>>, name: Seq<char>) -> Seq<Seq<char>> {
    if names.contains(name) {
        names
    } else {
        names.push(name)
    }
}

/// A name keeps its place when another name joins the table.
pub proof fn lemma_place_kept(names: Seq<Seq<char>>, name: Seq<char>, other: Seq<char>)
    requires
        place_of(names, name).is_some(),
    ensures
        place_of(with_name(names, other), name) == place_of(names, name),
{
    names.index_of_first_ensures(name);
    let place = names.index_of_first(name).unwrap();
    let grown = with_name(names, other);
    assert(grown[place] == name);
    grown.index_of_first_ensures(name);
    let found = grown.index_of_first(name).unwrap();
    if found < place {
        assert(names[found] == name);
    }
}

/// The identifiers of the three names that stand for a scope rather than an
/// account.
#[derive(Debug, Clone, Copy, PartialEq, Eq, Structural)]
pub struct Symbols {
    /// `new`: a fresh balance that belongs to the scope being entered.
    pub new_: ID,
    /// `self`: the balance of the scope that is current.
    pub self_: ID,
    /// `super`: the balance of the scope around the current one.
    pub super_: ID,
}

impl Symbols {
    /// The identifiers of `new`, `self` and `super`, each of which is added
    /// to the table unless it is there already.
    pub fn new(interner: &mut Interner) -> (symbols: Symbols)
        requires
            interned(*old(interner)).len() + 3 <= u32::MAX,
        ensures
            interned(*final(interner)) == with_name(
                with_name(with_name(interned(*old(interner)), "new"@), "self"@),
                "super"@,
            ),
            place_of(interned(*final(interner)), "new"@) == Some(symbols.new_.index as int),
            place_of(interned(*final(interner)), "self"@) == Some(symbols.self_.index as int),
            place_of(interned(*final(interner)), "super"@) == Some(symbols.super_.index as int),
            symbols.distinct(),
    {
        let ghost names = interned(*interner);
        let new_ = interner.get_or_intern("new");
        let self_ = interner.get_or_intern("self");
        let super_ = interner.get_or_intern("super");
        proof {
            let first = with_name(names, "new"@);
            let second = with_name(first, "self"@);
            lemma_place_kept(first, "new"@, "self"@);
            lemma_place_kept(second, "new"@, "super"@);
            lemma_place_kept(second, "self"@, "super"@);
            reveal_strlit("new");
            reveal_strlit("self");
            reveal_strlit("super");
            let last = interned(*interner);
            last.index_of_first_ensures("new"@);
            last.index_of_first_ensures("self"@);
            last.index_of_first_ensures("super"@);
            assert("new"@.len() == 3 && "self"@.len() == 4 && "super"@.len() == 5);
            assert(last[new_.index as int] == "new"@);
            assert(last[self_.index as int] == "self"@);
            assert(last[super_.index as int] == "super"@);
        }
        Symbols { new_, self_, super_ }
    }

    /// As [`Symbols::new`], or `None`, with the table as it was, where the
    /// table has no room for three more names.
    pub fn try_new(interner: &mut Interner) -> (symbols: Option<Symbols>)
        ensures
            symbols.is_some() == (interned(*old(interner)).len() + 3 <= u32::MAX),
            symbols.is_none() ==> interned(*final(interner)) == interned(*old(interner)),
            symbols.is_some() ==> interned(*final(interner)) == with_name(
                with_name(with_name(interned(*old(interner)), "new"@), "self"@),
                "super"@,
            ) && place_of(interned(*final(interner)), "new"@) == Some(
                symbols.unwrap().new_.index as int,
            ) && place_of(interned(*final(interner)), "self"@) == Some(
                symbols.unwrap().self_.index as int,
            ) && place_of(interned(*final(interner)), "super"@) == Some(
                symbols.unwrap().super_.index as int,
            ) && symbols.unwrap().distinct(),
    {
        if interner.len() <= 0xFFFF_FFFC {
            Some(Symbols::new(interner))
        } else {
            None
        }
    }

    /// Whether the three identifiers differ from one another, as those of
    /// three names do.
    pub open spec fn distinct(self) -> bool {
        self.new_ != self.self_ && self.self_ != self.super_ && self.new_ != self.super_
    }

    /// Whether `account` can be resolved under `depth` active scopes:
    /// `super` needs two of them, `self` one.
    pub open spec fn resolvable(self, depth: nat, account: ID) -> bool {
        if account == self.super_ {
            depth >= 2
        } else if account == self.self_ {
            depth >= 1
        } else {
            true
        }
    }

    /// The key that `account` stands for under the active scopes `frames`.
    pub open spec fn resolved(self, frames: Seq<StackID>, account: ID) -> StackID
        recommends
            self.resolvable(frames.len(), account),
    {
        if account == self.super_ {
            frames[frames.len() - 2]
        } else if account == self.self_ {
            frames[frames.len() - 1]
        } else if account == self.new_ {
            StackID::Layer(frames.len() as usize)
        } else {
            StackID::Account(account)
        }
    }

    /// Whether `account` can be resolved under `depth` active scopes.
    pub fn can_resolve(&self, depth: usize, account: ID) -> (can: bool)
        ensures
            can == self.resolvable(depth as nat, account),
    {
        if account == self.super_ {
            depth >= 2
        } else if account == self.self_ {
            depth >= 1
        } else {
            true
        }
    }
}

/// What a stack holds: the keys of the active scopes, outermost first, and
/// the balance under every key that was ever booked on.
pub struct Books<M> {
    pub frames: Seq<StackID>,
    pub balances: Map<StackID, M>,
}

impl<M: Money> Books<M> {
    /// The balance under `key`: nothing where the key was never booked on.
    pub open spec fn balance(self, key: StackID) -> M {
        balance_in(self.balances, key)
    }

    /// The books after entering the scope of `account`.
    pub open spec fn pushed(self, symbols: Symbols, account: ID) -> Books<M> {
        Books { frames: self.frames.push(symbols.resolved(self.frames, account)), ..self }
    }

    /// The books after leaving the innermost scope.
    pub open spec fn popped(self) -> Books<M> {
        if self.frames.len() > 0 {
            Books { frames: self.frames.drop_last(), ..self }
        } else {
            self
        }
    }

    /// The books after `amount` went from `from` to `to`: first out of the
    /// one, then into the other.
    pub open spec fn transferred(self, from: StackID, to: StackID, amount: M) -> Books<M> {
        let debited = self.balances.insert(from, balance_in(self.balances, from).minus(amount));
        let credited = debited.insert(to, balance_in(debited, to).plus(amount));
        Books { balances: credited, ..self }
    }
}

/// The balances of each of `stacks`.
pub open spec fn balances_of<M: Money>(stacks: Seq<Stack<M>>) -> Seq<Map<StackID, M>> {
    Seq::new(stacks.len(), |i: int| stacks[i]@.balances)
}

/// Whether one of `branches` holds `key`.
pub open spec fn touched<M>(branches: Seq<Map<StackID, M>>, key: StackID) -> bool {
    exists|i: int| 0 <= i < branches.len() && (#[trigger] branches[i]).dom().contains(key)
}

/// What `branches` changed under `key`, taken together: starting from
/// nothing, each branch that holds the key adds what its balance is above
/// the one in `base`.
pub open spec fn net_change<M: Money>(
    base: Map<StackID, M>,
    branches: Seq<Map<StackID, M>>,
    key: StackID,
) -> M
    decreases branches.len(),
{
    if branches.len() == 0 {
        M::nil()
    } else {
        let before = net_change(base, branches.drop_last(), key);
        if branches.last().dom().contains(key) {
            before.plus(branches.last()[key].minus(balance_in(base, key)))
        } else {
            before
        }
    }
}

/// The balances after `branches`, each of which started from `base`, were
/// merged back into it: under every key that a branch holds, the balance of
/// `base` plus what the branches changed taken together.
pub open spec fn merged<M: Money>(
    base: Map<StackID, M>,
    branches: Seq<Map<StackID, M>>,
) -> Map<StackID, M> {
    Map::new(
        |key: StackID| base.dom().contains(key) || touched(branches, key),
        |key: StackID|
            if touched(branches, key) {
                balance_in(base, key).plus(net_change(base, branches, key))
            } else {
                base[key]
            },
    )
}

/// What one more branch adds to [`net_change`] and [`touched`].
pub proof fn lemma_one_more_branch<M: Money>(
    base: Map<StackID, M>,
    branches: Seq<Map<StackID, M>>,
    count: int,
    key: StackID,
)
    requires
        0 <= count < branches.len(),
    ensures
        net_change(base, branches.take(count + 1), key) == if branches[count].dom().contains(key) {
            net_change(base, branches.take(count), key).plus(
                branches[count][key].minus(balance_in(base, key)),
            )
        } else {
            net_change(base, branches.take(count), key)
        },
        touched(branches.take(count + 1), key) == (touched(branches.take(count), key)
            || branches[count].dom().contains(key)),
{
    let more = branches.take(count + 1);
    let fewer = branches.take(count);
    assert(more.drop_last() =~= fewer);
    assert(more.last() == branches[count]);
    if touched(fewer, key) {
        let i = choose|i: int| 0 <= i < fewer.len() && (#[trigger] fewer[i]).dom().contains(key);
        assert(more[i].dom().contains(key));
    }
    if branches[count].dom().contains(key) {
        assert(more[count].dom().contains(key));
    }
    if touched(more, key) {
        let i = choose|i: int| 0 <= i < more.len() && (#[trigger] more[i]).dom().contains(key);
        if i < count {
            assert(fewer[i].dom().contains(key));
        }
    }
}

/// Whether `key` is the key of a scope, or of an account that `accounts`
/// lists.
pub open spec fn listed<M>(accounts: Seq<(ID, M)>, key: StackID) -> bool {
    match key {
        StackID::Layer(_) => true,
        StackID::Account(id) => exists|i: int|
            0 <= i < accounts.len() && (#[trigger] accounts[i]).0 == id,
    }
}

/// The stack of active scopes with the balances of all accounts.
#[derive(Debug)]
pub struct Stack<M: Money> {
    symbols: Symbols,
    balances: Ledger<M>,
    children: Vec<StackID>,
}

impl<M: Money> View for Stack<M> {
    type V = Books<M>;

    closed spec fn view(&self) -> Books<M> {
        Books { frames: self.children@, balances: self.balances@ }
    }
}

impl<M: Money> Stack<M> {
    /// The invariant of the stack: its balances are in order.
    pub closed spec fn wf(&self) -> bool {
        self.balances.wf()
    }

    /// The identifiers that the stack resolves scopes with.
    pub closed spec fn symbols(&self) -> Symbols {
        self.symbols
    }

    /// A stack without scopes or balances.
    pub fn new(symbols: Symbols) -> (stack: Stack<M>)
        ensures
            stack.wf(),
            stack.symbols() == symbols,
            stack@.frames == Seq::<StackID>::empty(),
            stack@.balances == Map::<StackID, M>::empty(),
    {
        Stack { symbols, balances: Ledger::new(), children: Vec::new() }
    }

    /// The identifiers that the stack resolves scopes with.
    pub fn reserved(&self) -> (symbols: Symbols)
        ensures
            symbols == self.symbols(),
    {
        self.symbols
    }

    /// The number of active scopes.
    pub fn depth(&self) -> (depth: usize)
        ensures
            depth == self@.frames.len(),
    {
        self.children.len()
    }

    /// The key that `account` stands for under the active scopes.
    pub fn resolve(&self, account: ID) -> (key: StackID)
        requires
            self.symbols().resolvable(self@.frames.len(), account),
        ensures
            key == self.symbols().resolved(self@.frames, account),
    {
        if account == self.symbols.super_ {
            self.children[self.children.len() - 2]
        } else if account == self.symbols.self_ {
            self.children[self.children.len() - 1]
        } else if account == self.symbols.new_ {
            StackID::Layer(self.children.len())
        } else {
            StackID::Account(account)
        }
    }

    /// Enters the scope of `account`: its key, resolved under the scopes
    /// that are active before the call, becomes the innermost scope.
    pub fn push(&mut self, account: ID)
        requires
            old(self).wf(),
            old(self).symbols().resolvable(old(self)@.frames.len(), account),
        ensures
            final(self).wf(),
            final(self).symbols() == old(self).symbols(),
            final(self)@ == old(self)@.pushed(old(self).symbols(), account),
    {
        let key = self.resolve(account);
        self.children.push(key);
    }

    /// Leaves the innermost scope. The balances stay as they are.
    pub fn pop(&mut self)
        requires
            old(self).wf(),
        ensures
            final(self).wf(),
            final(self).symbols() == old(self).symbols(),
            final(self)@ == old(self)@.popped(),
    {
        self.children.pop();
        proof {
            assert(self@.frames =~= old(self)@.popped().frames);
        }
    }

    /// The balance under a key: nothing where the key was never booked on.
    pub fn index_key(&self, key: StackID) -> (amount: M)
        requires
            self.wf(),
        ensures
            amount == self@.balance(key),
    {
        self.balances.get(key)
    }

    /// The balance of `account` as the active scopes resolve it.
    pub fn index(&self, account: ID) -> (amount: M)
        requires
            self.wf(),
            self.symbols().resolvable(self@.frames.len(), account),
        ensures
            amount == self@.balance(self.symbols().resolved(self@.frames, account)),
    {
        self.balances.get(self.resolve(account))
    }

    /// Moves `amount` from one account to another, each as the active
    /// scopes resolve it: the amount leaves `from`, then joins `to`.
    pub fn transfer(&mut self, from: ID, to: ID, amount: M)
        requires
            old(self).wf(),
            old(self).symbols().resolvable(old(self)@.frames.len(), from),
            old(self).symbols().resolvable(old(self)@.frames.len(), to),
        ensures
            final(self).wf(),
            final(self).symbols() == old(self).symbols(),
            final(self)@ == old(self)@.transferred(
                old(self).symbols().resolved(old(self)@.frames, from),
                old(self).symbols().resolved(old(self)@.frames, to),
                amount,
            ),
    {
        let source = self.resolve(from);
        let target = self.resolve(to);
        self.balances.debit(source, amount);
        self.balances.credit(target, amount);
    }

    /// Adds `amount` to the balance of `account` as the active scopes
    /// resolve it.
    pub fn credit(&mut self, account: ID, amount: M)
        requires
            old(self).wf(),
            old(self).symbols().resolvable(old(self)@.frames.len(), account),
        ensures
            final(self).wf(),
            final(self).symbols() == old(self).symbols(),
            final(self)@.frames == old(self)@.frames,
            final(self)@.balances == old(self)@.balances.insert(
                old(self).symbols().resolved(old(self)@.frames, account),
                old(self)@.balance(old(self).symbols().resolved(old(self)@.frames, account)).plus(
                    amount,
                ),
            ),
    {
        let key = self.resolve(account);
        self.balances.credit(key, amount);
    }

    /// A stack with the same scopes and balances.
    pub fn duplicate(&self) -> (copy: Stack<M>)
        requires
            self.wf(),
        ensures
            copy.wf(),
            copy.symbols() == self.symbols(),
            copy@ == self@,
    {
        let mut children: Vec<StackID> = Vec::new();
        let mut place: usize = 0;
        while place < self.children.len()
            invariant
                place <= self.children@.len(),
                children@ == self.children@.take(place as int),
            decreases self.children@.len() - place,
        {
            children.push(self.children[place]);
            place += 1;
            proof {
                assert(children@ =~= self.children@.take(place as int));
            }
        }
        proof {
            assert(children@ =~= self.children@);
        }
        Stack { symbols: self.symbols, balances: self.balances.duplicate(), children }
    }

    /// `count` stacks, each with the scopes and balances of this one, to be
    /// changed apart from one another.
    pub fn split(&self, count: usize) -> (copies: Vec<Stack<M>>)
        requires
            self.wf(),
        ensures
            copies@.len() == count,
            forall|i: int|
                0 <= i < count ==> (#[trigger] copies@[i]).wf() && copies@[i].symbols()
                    == self.symbols() && copies@[i]@ == self@,
    {
        let mut copies: Vec<Stack<M>> = Vec::new();
        while copies.len() < count
            invariant
                self.wf(),
                copies@.len() <= count,
                forall|i: int|
                    0 <= i < copies@.len() ==> (#[trigger] copies@[i]).wf() && copies@[i].symbols()
                        == self.symbols() && copies@[i]@ == self@,
            decreases count - copies@.len(),
        {
            copies.push(self.duplicate());
        }
        copies
    }

    /// The balances of the named accounts, without those that belong to a
    /// scope.
    pub fn balances(&self) -> (accounts: Vec<(ID, M)>)
        requires
            self.wf(),
        ensures
            forall|i: int|
                0 <= i < accounts@.len() ==> self@.balances.dom().contains(
                    StackID::Account((#[trigger] accounts@[i]).0),
                ) && self@.balances[StackID::Account(accounts@[i].0)] == accounts@[i].1,
            forall|id: ID|
                self@.balances.dom().contains(StackID::Account(id)) ==> exists|i: int|
                    0 <= i < accounts@.len() && (#[trigger] accounts@[i]).0 == id,
            forall|i: int, j: int|
                0 <= i < j < accounts@.len() ==> accounts@[i].0 != accounts@[j].0,
    {
        let mut accounts: Vec<(ID, M)> = Vec::new();
        let count = self.balances.len();
        let mut place: usize = 0;
        let ghost mut places: Seq<int> = Seq::empty();
        proof {
            self.balances.lemma_places();
        }
        while place < count
            invariant
                self.wf(),
                count == self.balances.count(),
                place <= count,
                places.len() == accounts@.len(),
                forall|i: int|
                    0 <= i < accounts@.len() ==> 0 <= #[trigger] places[i] < place
                        && self.balances.key_at(places[i]) == StackID::Account(accounts@[i].0)
                        && self.balances@[StackID::Account(accounts@[i].0)] == accounts@[i].1,
                forall|i: int, j: int| 0 <= i < j < places.len() ==> places[i] < places[j],
                forall|at: int|
                    0 <= at < place ==> listed(accounts@, #[trigger] self.balances.key_at(at)),
                forall|at: int|
                    0 <= at < count ==> self.balances@.dom().contains(
                        #[trigger] self.balances.key_at(at),
                    ),
                forall|first: int, second: int|
                    0 <= first < second < count ==> self.balances.key_at(first)
                        != self.balances.key_at(second),
            decreases count - place,
        {
            let (key, amount) = self.balances.entry(place);
            let ghost before = accounts@;
            if let StackID::Account(id) = key {
                accounts.push((id, amount));
                proof {
                    places = places.push(place as int);
                    assert(accounts@[accounts@.len() - 1].0 == id);
                }
            }
            proof {
                assert forall|at: int| 0 <= at < place + 1 implies listed(
                    accounts@,
                    #[trigger] self.balances.key_at(at),
                ) by {
                    if at < place {
                        assert(listed(before, self.balances.key_at(at)));
                        if let StackID::Account(id) = self.balances.key_at(at) {
                            let i = choose|i: int|
                                0 <= i < before.len() && (#[trigger] before[i]).0 == id;
                            assert(accounts@[i].0 == id);
                        }
                    }
                }
            }
            place += 1;
        }
        proof {
            assert forall|id: ID|
                self@.balances.dom().contains(StackID::Account(id)) implies exists|i: int|
                0 <= i < accounts@.len() && (#[trigger] accounts@[i]).0 == id by {
                let at = choose|at: int|
                    0 <= at < self.balances.count() && #[trigger] self.balances.key_at(at)
                        == StackID::Account(id);
                assert(listed(accounts@, self.balances.key_at(at)));
            }
            assert forall|i: int| 0 <= i < accounts@.len() implies self@.balances.dom().contains(
                StackID::Account((#[trigger] accounts@[i]).0),
            ) && self@.balances[StackID::Account(accounts@[i].0)] == accounts@[i].1 by {
                assert(self.balances@.dom().contains(self.balances.key_at(places[i])));
            }
            assert forall|i: int, j: int| 0 <= i < j < accounts@.len() implies accounts@[i].0
                != accounts@[j].0 by {
                assert(places[i] < places[j]);
            }
        }
        accounts
    }

    /// Adds to `changes`, under every key that `branch` holds, what the
    /// balance of `branch` is above the one of this stack.
    fn book_changes(&self, branch: &Stack<M>, changes: &mut Ledger<M>)
        requires
            self.wf(),
            branch.wf(),
            old(changes).wf(),
        ensures
            final(changes).wf(),
            forall|key: StackID|
                #![trigger final(changes)@.dom().contains(key)]
                final(changes)@.dom().contains(key) == (old(changes)@.dom().contains(key)
                    || branch@.balances.dom().contains(key)),
            forall|key: StackID|
                #![trigger final(changes).balance(key)]
                final(changes).balance(key) == if branch@.balances.dom().contains(key) {
                    old(changes).balance(key).plus(
                        branch@.balances[key].minus(self@.balance(key)),
                    )
                } else {
                    old(changes).balance(key)
                },
    {
        let count = branch.balances.len();
        let mut place: usize = 0;
        proof {
            branch.balances.lemma_places();
        }
        while place < count
            invariant
                self.wf(),
                branch.wf(),
                changes.wf(),
                count == branch.balances.count(),
                place <= count,
                forall|at: int|
                    0 <= at < count ==> branch.balances@.dom().contains(
                        #[trigger] branch.balances.key_at(at),
                    ),
                forall|first: int, second: int|
                    0 <= first < second < count ==> branch.balances.key_at(first)
                        != branch.balances.key_at(second),
                forall|key: StackID|
                    #![trigger changes@.dom().contains(key)]
                    changes@.dom().contains(key) == (old(changes)@.dom().contains(key)
                        || branch.balances.seen(place as int, key)),
                forall|key: StackID|
                    #![trigger changes.balance(key)]
                    changes.balance(key) == if branch.balances.seen(place as int, key) {
                        old(changes).balance(key).plus(
                            branch@.balances[key].minus(self@.balance(key)),
                        )
                    } else {
                        old(changes).balance(key)
                    },
            decreases count - place,
        {
            let ghost before = *changes;
            let (key, amount) = branch.balances.entry(place);
            let change = amount.difference(self.balances.get(key));
            changes.credit(key, change);
            proof {
                assert(!branch.balances.seen(place as int, key)) by {
                    if branch.balances.seen(place as int, key) {
                        let at = choose|at: int|
                            0 <= at < place && #[trigger] branch.balances.key_at(at) == key;
                        assert(branch.balances.key_at(at) != branch.balances.key_at(place as int));
                    }
                }
                assert forall|other: StackID|
                    branch.balances.seen(place + 1, other) == (branch.balances.seen(
                        place as int,
                        other,
                    ) || other == key) by {
                    if other == key {
                        assert(branch.balances.key_at(place as int) == key);
                    }
                    if branch.balances.seen(place as int, other) {
                        let at = choose|at: int|
                            0 <= at < place && #[trigger] branch.balances.key_at(at) == other;
                        assert(0 <= at < place + 1);
                    }
                }
                assert forall|other: StackID|
                    #![trigger changes@.dom().contains(other)]
                    changes@.dom().contains(other) == (old(changes)@.dom().contains(other)
                        || branch.balances.seen(place + 1, other)) by {
                    assert(before@.dom().contains(other) == (old(changes)@.dom().contains(other)
                        || branch.balances.seen(place as int, other)));
                }
                assert forall|other: StackID|
                    #![trigger changes.balance(other)]
                    changes.balance(other) == if branch.balances.seen(place + 1, other) {
                        old(changes).balance(other).plus(
                            branch@.balances[other].minus(self@.balance(other)),
                        )
                    } else {
                        old(changes).balance(other)
                    } by {
                    assert(before.balance(other) == if branch.balances.seen(place as int, other) {
                        old(changes).balance(other).plus(
                            branch@.balances[other].minus(self@.balance(other)),
                        )
                    } else {
                        old(changes).balance(other)
                    });
                }
            }
            place += 1;
        }
        proof {
            assert forall|key: StackID|
                branch.balances.seen(count as int, key) == branch@.balances.dom().contains(
                    key,
                ) by {
                if branch@.balances.dom().contains(key) {
                    let at = choose|at: int|
                        0 <= at < branch.balances.count() && #[trigger] branch.balances.key_at(at)
                            == key;
                    assert(branch.balances.seen(count as int, key));
                }
                if branch.balances.seen(count as int, key) {
                    let at = choose|at: int|
                        0 <= at < count && #[trigger] branch.balances.key_at(at) == key;
                }
            }
        }
    }

    /// What `stacks` changed under each key, taken together.
    fn net_changes(&self, stacks: &Vec<Stack<M>>) -> (changes: Ledger<M>)
        requires
            self.wf(),
            forall|i: int| 0 <= i < stacks@.len() ==> (#[trigger] stacks@[i]).wf(),
        ensures
            changes.wf(),
            forall|key: StackID|
                #![trigger changes@.dom().contains(key)]
                changes@.dom().contains(key) == touched(balances_of(stacks@), key),
            forall|key: StackID|
                #![trigger changes.balance(key)]
                changes.balance(key) == net_change(self@.balances, balances_of(stacks@), key),
    {
        let mut changes: Ledger<M> = Ledger::new();
        let mut done: usize = 0;
        let ghost branches = balances_of(stacks@);
        while done < stacks.len()
            invariant
                self.wf(),
                forall|i: int| 0 <= i < stacks@.len() ==> (#[trigger] stacks@[i]).wf(),
                branches == balances_of(stacks@),
                done <= stacks@.len(),
                changes.wf(),
                forall|key: StackID|
                    #![trigger changes@.dom().contains(key)]
                    changes@.dom().contains(key) == touched(branches.take(done as int), key),
                forall|key: StackID|
                    #![trigger changes.balance(key)]
                    changes.balance(key) == net_change(
                        self@.balances,
                        branches.take(done as int),
                        key,
                    ),
            decreases stacks@.len() - done,
        {
            let ghost before = changes;
            self.book_changes(&stacks[done], &mut changes);
            proof {
                assert(branches[done as int] == stacks@[done as int]@.balances);
                assert forall|key: StackID|
                    #![trigger changes@.dom().contains(key)]
                    changes@.dom().contains(key) == touched(
                        branches.take(done + 1),
                        key,
                    ) by {
                    lemma_one_more_branch(self@.balances, branches, done as int, key);
                    assert(before@.dom().contains(key) == touched(
                        branches.take(done as int),
                        key,
                    ));
                }
                assert forall|key: StackID|
                    #![trigger changes.balance(key)]
                    changes.balance(key) == net_change(
                        self@.balances,
                        branches.take(done + 1),
                        key,
                    ) by {
                    lemma_one_more_branch(self@.balances, branches, done as int, key);
                    assert(before.balance(key) == net_change(
                        self@.balances,
                        branches.take(done as int),
                        key,
                    ));
                }
            }
            done += 1;
        }
        proof {
            assert(branches.take(done as int) =~= branches);
        }
        changes
    }

    /// Merges `stacks`, each of which started as a copy of this stack, back
    /// into it: every balance moves by what the stacks changed under its
    /// key, taken together. The scopes of this stack stay as they are.
    pub fn merge(&mut self, stacks: Vec<Stack<M>>)
        requires
            old(self).wf(),
            forall|i: int| 0 <= i < stacks@.len() ==> (#[trigger] stacks@[i]).wf(),
        ensures
            final(self).wf(),
            final(self).symbols() == old(self).symbols(),
            final(self)@.frames == old(self)@.frames,
            final(self)@.balances == merged(old(self)@.balances, balances_of(stacks@)),
    {
        let changes = self.net_changes(&stacks);
        let count = changes.len();
        let mut place: usize = 0;
        let ghost base = self@.balances;
        let ghost branches = balances_of(stacks@);
        proof {
            changes.lemma_places();
        }
        while place < count
            invariant
                self.wf(),
                changes.wf(),
                self.symbols() == old(self).symbols(),
                self@.frames == old(self)@.frames,
                base == old(self)@.balances,
                count == changes.count(),
                place <= count,
                forall|at: int|
                    0 <= at < count ==> changes@.dom().contains(#[trigger] changes.key_at(at)),
                forall|first: int, second: int|
                    0 <= first < second < count ==> changes.key_at(first) != changes.key_at(
                        second,
                    ),
                forall|key: StackID|
                    #![trigger self@.balances.dom().contains(key)]
                    self@.balances.dom().contains(key) == (base.dom().contains(key) || changes.seen(
                        place as int,
                        key,
                    )),
                forall|key: StackID|
                    #![trigger self@.balance(key)]
                    self@.balance(key) == if changes.seen(place as int, key) {
                        balance_in(base, key).plus(changes@[key])
                    } else {
                        balance_in(base, key)
                    },
            decreases count - place,
        {
            let ghost before = self@;
            let (key, change) = changes.entry(place);
            self.balances.credit(key, change);
            proof {
                assert(!changes.seen(place as int, key)) by {
                    if changes.seen(place as int, key) {
                        let at = choose|at: int|
                            0 <= at < place && #[trigger] changes.key_at(at) == key;
                        assert(changes.key_at(at) != changes.key_at(place as int));
                    }
                }
                assert forall|other: StackID|
                    changes.seen(place + 1, other) == (changes.seen(place as int, other) || other
                        == key) by {
                    if other == key {
                        assert(changes.key_at(place as int) == key);
                    }
                    if changes.seen(place as int, other) {
                        let at = choose|at: int|
                            0 <= at < place && #[trigger] changes.key_at(at) == other;
                        assert(0 <= at < place + 1);
                    }
                }
                assert forall|other: StackID|
                    #![trigger self@.balances.dom().contains(other)]
                    self@.balances.dom().contains(other) == (base.dom().contains(other)
                        || changes.seen(place + 1, other)) by {
                    assert(before.balances.dom().contains(other) == (base.dom().contains(other)
                        || changes.seen(place as int, other)));
                }
                assert forall|other: StackID|
                    #![trigger self@.balance(other)]
                    self@.balance(other) == if changes.seen(place + 1, other) {
                        balance_in(base, other).plus(changes@[other])
                    } else {
                        balance_in(base, other)
                    } by {
                    assert(before.balance(other) == if changes.seen(place as int, other) {
                        balance_in(base, other).plus(changes@[other])
                    } else {
                        balance_in(base, other)
                    });
                }
            }
            place += 1;
        }
        proof {
            assert forall|key: StackID|
                changes.seen(count as int, key) == changes@.dom().contains(key) by {
                if changes@.dom().contains(key) {
                    let at = choose|at: int|
                        0 <= at < changes.count() && #[trigger] changes.key_at(at) == key;
                    assert(changes.seen(count as int, key));
                }
                if changes.seen(count as int, key) {
                    let at = choose|at: int|
                        0 <= at < count && #[trigger] changes.key_at(at) == key;
                }
            }
            let goal = merged(base, branches);
            assert forall|key: StackID| self@.balances.dom().contains(key) implies (
            #[trigger] self@.balances[key]) == goal[key] by {
                assert(self@.balance(key) == self@.balances[key]);
                assert(changes@.dom().contains(key) == touched(branches, key));
                if touched(branches, key) {
                    assert(changes.balance(key) == net_change(base, branches, key));
                }
            }
            assert forall|key: StackID|
                self@.balances.dom().contains(key) == goal.dom().contains(key) by {
                assert(changes@.dom().contains(key) == touched(branches, key));
            }
            assert(self@.balances =~= goal);
        }
    }
}

/// The stack and the table of names, as a transfer sees them while its
/// amount is found.
pub struct CtxMut<'s, 'i, M: Money> {
    stack: &'s mut Stack<M>,
    interner: &'i mut Interner,
}

impl<'s, 'i, M: Money> CtxMut<'s, 'i, M> {
    /// The stack.
    pub closed spec fn stack(&self) -> Stack<M> {
        *self.stack
    }

    /// The names.
    pub closed spec fn names(&self) -> Seq<Seq<char>> {
        interned(*self.interner)
    }

    /// The context of a stack and a table of names.
    pub fn new(stack: &'s mut Stack<M>, interner: &'i mut Interner) -> (ctx: CtxMut<'s, 'i, M>)
        ensures
            ctx.stack() == *old(stack),
            ctx.names() == interned(*old(interner)),
    {
        CtxMut { stack, interner }
    }

    /// The identifier of the account called `account`, which is added to
    /// the names unless it is there already.
    pub fn register(&mut self, account: &str) -> (id: ID)
        requires
            old(self).names().len() < u32::MAX,
        ensures
            final(self).stack() == old(self).stack(),
            final(self).names() == with_name(old(self).names(), account@),
            place_of(final(self).names(), account@) == Some(id.index as int),
    {
        self.interner.get_or_intern(account)
    }

    /// As [`CtxMut::register`], or `None`, with the names as they were,
    /// where the table of names is full.
    pub fn try_register(&mut self, account: &str) -> (id: Option<ID>)
        ensures
            final(self).stack() == old(self).stack(),
            id.is_some() == (old(self).names().len() < u32::MAX),
            id.is_none() ==> final(self).names() == old(self).names(),
            id.is_some() ==> final(self).names() == with_name(old(self).names(), account@)
                && place_of(final(self).names(), account@) == Some(id.unwrap().index as int),
    {
        self.interner.try_intern(account)
    }

    /// The balance of `account` as the active scopes resolve it.
    pub fn index(&self, account: ID) -> (amount: M)
        requires
            self.stack().wf(),
            self.stack().symbols().resolvable(self.stack()@.frames.len(), account),
        ensures
            amount == self.stack()@.balance(
                self.stack().symbols().resolved(self.stack()@.frames, account),
            ),
    {
        self.stack.index(account)
    }

    /// The balance of the account called `account` as the active scopes
    /// resolve it: `None` where no account has that name or the scopes
    /// cannot resolve it.
    pub fn index_named(&self, account: &str) -> (amount: Option<M>)
        requires
            self.stack().wf(),
        ensures
            match place_of(self.names(), account@) {
                Some(place) => {
                    let id = ID { index: place as u32 };
                    if self.stack().symbols().resolvable(self.stack()@.frames.len(), id) {
                        amount == Some(
                            self.stack()@.balance(
                                self.stack().symbols().resolved(self.stack()@.frames, id),
                            ),
                        )
                    } else {
                        amount.is_none()
                    }
                },
                None => amount.is_none(),
            },
    {
        proof {
            self.names().index_of_first_ensures(account@);
        }
        match self.interner.get(account) {
            Some(id) => {
                if self.stack.reserved().can_resolve(self.stack.depth(), id) {
                    Some(self.stack.index(id))
                } else {
                    None
                }
            },
            None => None,
        }
    }

    /// Adds `amount` to the balance of `account` as the active scopes
    /// resolve it.
    pub fn credit(&mut self, account: ID, amount: M)
        requires
            old(self).stack().wf(),
            old(self).stack().symbols().resolvable(old(self).stack()@.frames.len(), account),
        ensures
            final(self).names() == old(self).names(),
            final(self).stack().wf(),
            final(self).stack().symbols() == old(self).stack().symbols(),
            final(self).stack()@.frames == old(self).stack()@.frames,
            final(self).stack()@.balances == old(self).stack()@.balances.insert(
                old(self).stack().symbols().resolved(old(self).stack()@.frames, account),
                old(self).stack()@.balance(
                    old(self).stack().symbols().resolved(old(self).stack()@.frames, account),
                ).plus(amount),
            ),
    {
        self.stack.credit(account, amount);
    }
}

} // verus!
