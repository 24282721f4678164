//! Core logic of a multi-protocol echo service.
//!
//! The crate holds the verified parts of the service: the port-range
//! codec that turns a textual range expression into a set of listen
//! ports and back, the per-protocol echo decisions (TCP stream, UDP
//! datagram, HTTP request), and the listener/orchestrator state
//! machines that govern bind failures, accept errors and shutdown.
//! All I/O lives outside this crate; callers hand in plain values and
//! perform the actions these functions decide on.

pub mod handler;
pub mod ports;
pub mod runtime;
