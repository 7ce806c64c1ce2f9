//! Session engine for the Project 1999 and Project Quarm game protocols.
//!
//! Everything here is computation over plain values: wire formats, codecs,
//! reliable-stream state machines and the login, world and zone sequences.
//! Sockets, clocks and files belong to the host, which performs the actions a
//! state machine asks for and hands the results back. Times are nanoseconds on
//! a monotonic clock of the host's choosing.

pub mod assets;
pub mod bytes;
pub mod chat;
pub mod client;
pub mod old_transport;
pub mod outside;
pub mod p99;
pub mod text;
pub mod transport;

