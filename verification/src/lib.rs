//! Simulation of scheduled money flows between named accounts.
//!
//! Events fire on the days of a [`Schedule`]; each firing runs a tree of
//! [`Statements`] against the scoped balances of a [`Timeline`], which keeps
//! the balance of every account after every firing.

pub mod account;
pub mod builtin;
pub mod date;
pub mod event;
pub mod ledger;
pub mod money;
pub mod ops;
pub mod process;
pub mod pump;
pub mod schedule;
pub mod statement;
pub mod syntax;
pub mod timeline;
pub mod transaction;

pub use date::Datestamp;
pub use event::Event;
pub use schedule::Schedule;
pub use statement::{Operation, Statement, Statements};
pub use timeline::{Moment as TimelineMoment, Resolve, Timeline};
