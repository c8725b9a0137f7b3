//! The runtime core of a client for a Redis-style server: the commands and
//! the messages that carry them to a connection, the wire encoding of
//! commands, the reply queue of a pipelined connection, the connection
//! handshake, reconnect backoff and subscription bookkeeping, and the
//! cluster side: hash slots, the slot map, redirections, and the splitting
//! of multi-key commands across shards.

pub mod command;
pub mod message;
pub mod resp;
pub mod pipeline;
pub mod handshake;
pub mod reconnect;
pub mod subscriptions;
pub mod slot;
pub mod cluster;
pub mod redirect;
