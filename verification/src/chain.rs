//! The custody side of the venue: balances, escrows, nonces, the oracle and the chain log.
//!
//! It holds the money and knows nothing about requests, quotes or claims. The only way in is a
//! [`bundle::Bundle`] handed over by the settlement adapter, and the only way back is the
//! [`log::ChainLog`], which the [`indexer::Indexer`] turns into engine commands.

pub mod bundle;
pub mod custody;
pub mod escrow;
pub mod indexer;
pub mod log;
pub mod oracle;
