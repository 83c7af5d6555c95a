//! A verified framing layer for a small request/response key-value protocol:
//! frame encoding and decoding over a byte stream, per-connection buffering,
//! command dispatch, and the shared in-memory store.

pub mod bytebuf;
pub mod command;
pub mod connection;
pub mod frame;
pub mod laws;
pub mod store;
