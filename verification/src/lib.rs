//! Portable identities, simulation capabilities, a nonblocking transport
//! contract and a seeded in-memory two-endpoint network driven by virtual time.
pub mod laws;
pub mod ledger;
pub mod memory;
pub mod model;
pub mod sim;
pub mod time;
pub mod transport;
pub mod types;
