//! The wiring between the two systems.
//!
//! The engine and custody share no memory and cannot see each other. Here they are placed side
//! by side: the venue's clock is sampled at the call site and handed to the engine, engine events
//! are pumped to the settlement adapter and the chain log to the indexer, and the
//! [`harness::Harness`] holds both and the assertions that span both.

pub mod event_ring;
pub mod gateway;
pub mod handoff;
pub mod harness;
pub mod settlement;
pub mod venue;
