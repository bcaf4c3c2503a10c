//! A peer-to-peer overlay node's connection-establishment core: address
//! grammar, the unified protocol event stream, and the orchestration
//! decisions that take a fresh node identity from isolated to discoverable
//! and dialable. The network transport performs the declared actions and
//! feeds the observed events back in.

pub mod addr;
pub mod connection;
pub mod events;
pub mod laws;
pub mod node;
