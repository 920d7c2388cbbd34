//! Replays an ordered stream of deposits, withdrawals, disputes, resolves
//! and chargebacks into per-client balances.
//!
//! - `amount`: exact decimal amounts and their checked arithmetic.
//! - `store`: transaction records and the store of those that carry an amount.
//! - `ledger`: the per-client states and the order in which clients appeared.
//! - `processor`: the state machine that applies one record, and a whole run.
//! - `output`: the per-client rows that a run produces.
//! - `laws`: properties of the state machine, stated over its model and proved.

pub mod amount;
pub mod laws;
pub mod ledger;
pub mod output;
pub mod processor;
pub mod store;
