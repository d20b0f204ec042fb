//! A minimal single-node key-value store speaking a Redis-compatible wire
//! protocol: a byte-exact codec for the protocol's values, an in-memory
//! store with per-key time-to-live and lazy eviction, the mapping from
//! decoded requests to named commands, and the pure step function of the
//! per-connection read-decode-dispatch-encode-write loop. Every function
//! carries a contract; the round-trip of the codec and the expiry laws of
//! the store are proved.

pub mod cmds;
pub mod conn;
pub mod content;
pub mod db;
pub mod error;
pub mod laws;
pub mod parser;
pub mod res;
