//! A privacy-preserving DNS relay core: per-source-IP admission control with
//! fixed one-minute windows, uniformly random upstream selection,
//! length-prefixed framing for the proxied stream leg, and best-effort
//! introspection of DNS messages for logging.
//!
//! The surrounding program owns the sockets and the proxy tunnel; this crate
//! holds the decisions and the byte-level protocol work.

pub mod admission;
pub mod framing;
pub mod introspect;
pub mod upstream;
