//! An in-memory key-value server core speaking a RESP-style wire protocol:
//! a frame decoder and encoder, a command interpreter, a key-value store with
//! lazy expiry, and a per-connection session that ties them together.

pub mod decimal;
pub mod protocol;
pub mod command;
pub mod store;
pub mod session;
