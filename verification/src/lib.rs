//! Selection and ordering of competing transfer requests so that the fees
//! collected by the system account are as large as the search finds, while no
//! account balance ever goes below zero.

pub mod address;
pub mod candidate;
pub mod elite;
pub mod generator;
pub mod learning;
pub mod ledger;
pub mod model;
pub mod optimizer;
pub mod random;
pub mod search;
pub mod simulator;
pub mod transaction;

pub use address::{system_address, Address, SYSTEM_ADDRESS_STR};
pub use ledger::Ledger;
pub use optimizer::FeeMaximizer;
pub use transaction::{Request, Transaction};
