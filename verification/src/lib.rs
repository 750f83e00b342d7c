//! A personal income ledger: entry validation, balances over a snapshot of
//! records, money formatting, calendar helpers and a session stopwatch.

pub mod aggregate;
pub mod calendar;
pub mod migration;
pub mod money;
pub mod numeral;
pub mod reading;
pub mod record;
pub mod suggest;
pub mod text;
pub mod timer;
pub mod validate;
