//! A request-for-quote venue for two-sided event contracts, with machine-checked contracts.
//!
//! The crate is split along the seam between the two systems that make up a venue:
//!
//! - the modules at the root are the **engine** side: the money and time newtypes, the
//!   generation-counted slab, the claim ledger, quote selection and the command handlers;
//! - [`chain`] is the **custody** side: balances, withdrawals, escrows, the oracle, the log
//!   and the indexer that reads it;
//! - [`runtime`] wires the two together and holds the assertions that span both.
//!
//! Every function states in its contract what it returns and what it changes.

pub mod account;
pub mod arrays;
pub mod chain;
pub mod clock;
pub mod command;
pub mod config;
pub mod contract;
pub mod engine;
pub mod escrow;
pub mod event;
pub mod ledger;
pub mod manifest;
pub mod quote;
pub mod request;
pub mod reservation;
pub mod runtime;
pub mod selection;
pub mod settlement;
pub mod slab;
pub mod types;

