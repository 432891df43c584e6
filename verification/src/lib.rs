//! Verified core of the rind init system: flow payloads and their matching rules,
//! state branching, service ordering, enabled-unit bookkeeping and the log record format.
pub mod change;
pub mod common;
pub mod daemon;
pub mod engine;
pub mod flow;
pub mod json;
pub mod keyed;
pub mod logger;
pub mod login;
pub mod name;
pub mod order;
pub mod services;
pub mod store;
pub mod supervise;
pub mod text;
pub mod transport;

pub mod triggers;
pub mod units;
