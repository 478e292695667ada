//! Core logic of a temperature-telemetry firmware: discovery of sensors on a
//! shared single-wire bus, per-cycle assembly of a complete reading set, a
//! bounded drop-oldest broadcast channel between the sampling and reporting
//! tasks, and construction of the JSON payload and HTTP request that carry a
//! reading set to a remote collector.
//!
//! Everything that touches hardware, the network or the executor (bus
//! transactions, timed delays, sockets) lives outside this crate; the
//! functions here take the outcomes of those operations as plain values and
//! make every decision of the pipeline on them.

pub mod channel;
pub mod http;
pub mod retry;
pub mod sensors;
