//! Formulas: trees of named transactions that are folded into one amount.

use std::rc::Rc;
use vstd::prelude::*;

verus! {

/// The direction in which the change of a statement is counted.
#[derive(Debug, Clone, Copy, PartialEq, Eq, Hash, Structural)]
pub enum Flow {
    /// The change is added.
    In,
    /// The change is taken away.
    Out,
}

/// A function from an amount to an amount.
pub trait FnT<T> {
    /// What the function gives for `input`.
    spec fn applied(&self, input: T) -> T;

    fn call(&self, input: T) -> (output: T)
        ensures
            output == self.applied(input),
    ;
}

/// How a transaction finds its change.
#[derive(Debug)]
pub enum Operator<T, F> {
    /// The change is the value, whatever was accumulated.
    Value(T),
    /// The change is what the function gives for the amount accumulated so
    /// far.
    Func(F),
}

/// A child of a formula: a formula and the direction in which its change
/// is counted.
#[derive(Debug)]
pub struct Statement<T, F>(pub Flow, pub Action<T, F>);

/// A formula.
#[derive(Debug)]
pub enum Action<T, F> {
    /// A named change.
    Transaction { name: String, operator: Operator<T, F> },
    /// A formula that was given a name elsewhere and is used again here.
    Variable(Rc<Action<T, F>>),
    /// The children one after another, each on what the ones before it
    /// accumulated.
    Sequence(Vec<Statement<T, F>>),
    /// The children side by side, each on the same amount.
    Parallel(Vec<Statement<T, F>>),
}

/// A formula under the name it was given.
#[derive(Debug)]
pub struct Variable<T, F> {
    /// The direction in which the formula counts where it is used.
    pub flow: Flow,
    /// Whether the formula is shown in the output.
    pub print: bool,
    /// The name.
    pub name: String,
    /// The formula.
    pub action: Rc<Action<T, F>>,
}

/// What one evaluation of a transaction left in the trail.
#[derive(Debug, PartialEq, Eq, Hash)]
pub struct Record<T> {
    /// The name of the transaction.
    pub name: String,
    /// The change it made.
    pub change: T,
}

impl<T> View for Record<T> {
    type V = (Seq<char>, T);

    open spec fn view(&self) -> (Seq<char>, T) {
        (self.name@, self.change)
    }
}

/// The records of a trail, each as its name and change.
pub open spec fn entries<T>(trail: Seq<Record<T>>) -> Seq<(Seq<char>, T)> {
    trail.map_values(|record: Record<T>| record@)
}

} // verus!
