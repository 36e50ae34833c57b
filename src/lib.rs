//! A small key-value server's core: a codec for the REdis Serialization Protocol (RESP),
//! an in-memory store whose entries may expire, and the processor that answers the PING,
//! ECHO, SET and GET commands against that store.

pub mod command;
pub mod command_laws;
pub mod resp;
pub mod round_trip;
pub mod store;
