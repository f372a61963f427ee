//! A Redis-compatible key-value server's core: the RESP wire format, the typed keyspace
//! with expiring keys, the commands, and the dump that `SAVE` writes.
pub mod commands;
pub mod decimal;
pub mod resp;
