//! A trustless two-party escrow: a maker locks a quantity of one asset in a
//! vault controlled by a derived, keyless authority and names the quantity of
//! another asset required in return; a taker settles the swap atomically, or
//! the maker cancels and recovers the deposit.
//!
//! The crate is organised as three components over one modelled collaborator:
//! - [`ledger`]: the token ledger holding balances, consumed through
//!   `provision_holding_account`, `transfer` and `close_account`.
//! - [`store`]: durable keyed storage of escrow records.
//! - [`engine`]: the lifecycle engine with the three atomic operations
//!   (open, settle, cancel), each all-or-nothing.

pub mod engine;
pub mod error;
pub mod ledger;
pub mod state;
pub mod store;
