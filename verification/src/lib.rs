//! Verified model of the Cordis runtime's bookkeeping: service slots,
//! dependency projection, gated publication, listener registration,
//! lifecycle-recursion attribution and the watchdog decision.

pub mod table;
pub mod fiber;
pub mod gated;
pub mod store;
pub mod deps;
pub mod listener;
pub mod runtime;
pub mod service;
pub mod settle;
pub mod deadline;
pub mod component;
pub mod laws;
