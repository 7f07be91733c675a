//! A payments ledger: raw rows of text are validated into typed transaction
//! records, and the records are replayed into per-client account balances.
//!
//! Money is exact: an amount is a whole number of billionths of one unit, and
//! a balance is a whole number of units and billionths, so that the balance
//! equations hold without rounding.

pub mod input;
pub mod output;
pub mod parse;
pub mod row;
