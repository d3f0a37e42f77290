//! A log-structured key-value store: append-only command logs, an in-memory
//! index from keys to command positions, compaction, and the request and
//! response messages that carry its three operations over a network.

pub mod accounts;
pub mod bytes;
pub mod cli;
pub mod client;
pub mod command;
pub mod engine;
pub mod error;
pub mod index;
pub mod json;
pub mod laws;
pub mod logs;
pub mod names;
pub mod network;
pub mod replay;
pub mod server;
pub mod store;
