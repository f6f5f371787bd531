//! A verified sender pool: multiplexes typed requests over a fixed set of
//! connections, correlates asynchronous responses back to their callers, and
//! coordinates a two-phase (stop-accepting, drain, close) shutdown.
//!
//! The library is the pure decision core: it frames payloads, issues unique
//! correlation identifiers, keeps the in-flight table of every sender, routes
//! submissions round-robin, and applies the bounded reconnect policy. The
//! surrounding process performs the actual transport I/O, hands every inbound
//! byte string to the pool, and delivers each resolution to its waiting caller.

pub mod errors;
pub mod codec;
pub mod session;
pub mod sender;
pub mod pool;
pub mod client;

