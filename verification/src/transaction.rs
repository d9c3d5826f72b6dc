//! Transfers as they are reported: by identifier, by name, and as records
//! that own their text.

use crate::account::{interned, Interner};
use crate::date::Datestamp;
use crate::ledger::ID;
use crate::money::Money;
use vstd::prelude::*;

verus! {

/// The text of a label that may be missing.
pub open spec fn label_text(label: Option<&str>) -> Option<Seq<char>> {
    match label {
        Some(label) => Some(label@),
        None => None,
    }
}

/// The text of an owned label that may be missing.
pub open spec fn owned_label_text(label: Option<String>) -> Option<Seq<char>> {
    match label {
        Some(label) => Some(label@),
        None => None,
    }
}

/// A transfer between two accounts, each given by its identifier.
#[derive(Debug, Clone, Copy)]
pub struct Source<'l, M> {
    pub date: Datestamp,
    pub from: ID,
    pub to: ID,
    pub amount: M,
    pub label: Option<&'l str>,
}

/// A transfer between two accounts, each given by its name.
#[derive(Debug, Clone, Copy)]
pub struct NameView<'a, 'l, M> {
    pub date: Datestamp,
    pub from: &'a str,
    pub to: &'a str,
    pub amount: M,
    pub label: Option<&'l str>,
}

/// A transfer between two accounts, with text of its own.
#[derive(Debug)]
pub struct Record<M> {
    pub date: Datestamp,
    pub from: String,
    pub to: String,
    pub amount: M,
    pub label: Option<String>,
}

impl<'l, M: Money> Source<'l, M> {
    /// Whether the table holds a name for each of the two accounts.
    pub open spec fn named_in(&self, names: Seq<Seq<char>>) -> bool {
        self.from.index < names.len() && self.to.index < names.len()
    }

    /// The transfer with the names that the table holds for its accounts:
    /// `None` where it holds none for one of them.
    pub fn as_view<'a>(&self, interner: &'a Interner) -> (view: Option<NameView<'a, 'l, M>>)
        ensures
            view.is_some() == self.named_in(interned(*interner)),
            view.is_some() ==> {
                &&& view.unwrap().date == self.date
                &&& view.unwrap().from@ == interned(*interner)[self.from.index as int]
                &&& view.unwrap().to@ == interned(*interner)[self.to.index as int]
                &&& view.unwrap().amount == self.amount
                &&& view.unwrap().label == self.label
            },
    {
        let from = match interner.resolve(self.from) {
            Some(from) => from,
            None => {
                return None;
            },
        };
        let to = match interner.resolve(self.to) {
            Some(to) => to,
            None => {
                return None;
            },
        };
        Some(NameView { date: self.date, from, to, amount: self.amount, label: self.label })
    }
}

impl<M: Money> NameView<'_, '_, M> {
    /// The transfer with text of its own.
    pub fn as_record(&self) -> (record: Record<M>)
        ensures
            record.date == self.date,
            record.from@ == self.from@,
            record.to@ == self.to@,
            record.amount == self.amount,
            owned_label_text(record.label) == label_text(self.label),
    {
        Record {
            date: self.date,
            from: self.from.to_owned(),
            to: self.to.to_owned(),
            amount: self.amount,
            label: match self.label {
                Some(label) => Some(label.to_owned()),
                None => None,
            },
        }
    }
}

impl<M: Money> Record<M> {
    /// The record of a transfer that is given by names.
    pub fn from_view(value: NameView<'_, '_, M>) -> (record: Record<M>)
        ensures
            record.date == value.date,
            record.from@ == value.from@,
            record.to@ == value.to@,
            record.amount == value.amount,
            owned_label_text(record.label) == label_text(value.label),
    {
        value.as_record()
    }

    /// The transfer of the record, with the text borrowed from it.
    pub fn view_of<'a>(&'a self) -> (view: NameView<'a, 'a, M>)
        ensures
            view.date == self.date,
            view.from@ == self.from@,
            view.to@ == self.to@,
            view.amount == self.amount,
            label_text(view.label) == owned_label_text(self.label),
    {
        NameView {
            date: self.date,
            from: self.from.as_str(),
            to: self.to.as_str(),
            amount: self.amount,
            label: match &self.label {
                Some(label) => Some(label.as_str()),
                None => None,
            },
        }
    }
}

} // verus!
