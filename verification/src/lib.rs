//! The decisions of a loopback gateway that compresses what a coding agent sends to its model, and
//! of the exemptions from shortening tool output.
//!
//! The gateway serves one route and forwards to one destination. [`gateway`] holds the policy for
//! one request, [`listener`] where it may listen, [`socket`] the decisions of the server's loops,
//! [`upstream`] the policy of the upstream leg, and [`laws`] and [`gateway_laws`] what they promise.
//! [`passthrough`] decides which tool results ship as they are, with [`glob`] for command patterns
//! and [`json`] for the documents that record the commands, and [`exemption_laws`] is what it
//! promises. [`text`] and [`text_map`] are what the others are written with.
//!
//! Nothing here does I/O: sockets, clocks, the environment and the compression of a body's text
//! are the caller's.
pub mod exemption_laws;
pub mod gateway;
pub mod gateway_laws;
pub mod glob;
pub mod json;
pub mod laws;
pub mod listener;
pub mod passthrough;
pub mod socket;
pub mod text;
pub mod text_map;
pub mod upstream;
