//! Supervision and telemetry engine for a fleet of solver processes.
//!
//! The crate holds the decision logic of the engine as plain, verified
//! functions: the memory watchdog, the bounded launch pool, the wire decoder,
//! the per-clause statistics and the aggregator. Everything that touches the
//! operating system (sockets, child processes, timers) is left to the caller,
//! which feeds events in and carries actions out.

pub mod aggregate;
pub mod aggregator;
pub mod clause;
pub mod config;
pub mod launch;
pub mod stats;
pub mod supervisor;
pub mod watchdog;
pub mod wire;
