//! A small key-value server core: the wire codec, the keyspace with lazy
//! expiry, the command interpreter and the replication state machines.
//! Networking, tasks and the clock live outside this library; everything
//! here takes plain values and returns plain values.
pub mod codec;
pub mod store;
pub mod identity;
pub mod command;
pub mod replication;
