//! A minimal in-memory key-value server core speaking a Redis-compatible
//! wire protocol: the incremental frame codec, the command parser, the
//! key-value store with passive expiry, the command dispatcher, and the
//! replication handshake, each with a verified contract. All I/O stays
//! with the caller: connections hand bytes in and take bytes out.

pub mod command;
pub mod decoder;
pub mod digits;
pub mod frame;
pub mod server;
pub mod store;
