//! A shared-household ledger: calendar dates, an account registry, a line-oriented
//! ledger text with recurring invoices, pairwise balance netting, and the statement
//! of an account as text.
//!
//! Amounts are whole numbers of units, [`money::UNITS_PER_WHOLE`] to the currency
//! unit. Accounts are referred to by their index in the registry of the ledger.
//!
//! [`ledger::Ledger::new`] reads a ledger from its text, line by line as
//! [`grammar`] says; [`written`] holds the form in which lines are written and the
//! proof that they are read back as written. [`balance::Balance::fold`] nets the
//! invoices and payments of a ledger, and [`report_txt::generate`] makes the
//! statement of an account.

pub mod account;
pub mod balance;
pub mod date;
pub mod grammar;
pub mod ledger;
pub mod money;
pub mod recurrence;
pub mod report_txt;
pub mod text;
pub mod transaction;
pub mod written;
