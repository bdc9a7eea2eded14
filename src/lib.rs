//! Core of a passive HTTP/HTTPS relay: reading a client's first frame,
//! resolving where it goes, the per-connection state machine that drives the
//! relay, and the append-only log of exchanges.
pub mod bytes;
pub mod handler;
pub mod log;
pub mod request;
