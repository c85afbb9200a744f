//! An in-memory personal finance ledger.
//!
//! The ledger records income and expense transactions and derives aggregate
//! statistics from them: totals by kind, net balance, the mean transaction
//! amount, and a per-category breakdown.  Storage is append-only: a
//! transaction is never edited or removed once recorded, and each one
//! receives a unique, 1-based identifier equal to its insertion rank.
//!
//! Money is held in fixed-point form: an amount is a signed count of cents
//! (hundredths of the currency unit) stored in an `i64`.  Amount text such
//! as `"123.45"` is parsed by [`amount::parse_amount`] into cents, with at
//! most two fractional digits.

pub mod amount;
pub mod kind;
pub mod ledger;
pub mod text;
