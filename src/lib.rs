//! A tick-based economic simulation: actors with inventories and production
//! tasks trade goods on a market and settle payments through a ledger of banks.

pub mod actions;
pub mod actor;
pub mod ledger;
pub mod logbook;
pub mod market;
pub mod simulation;
pub mod store;
pub mod task;
pub mod text;
