//! A TCP message relay core: frame codec, per-connection rate limiting,
//! the shared connection registry with identifier allocation, and the
//! decisions of the client session and listener loops.

pub mod frame;
pub mod rate;
pub mod registry;
pub mod session;
pub mod config;
