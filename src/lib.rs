//! A priority queue served over a line protocol. Items carry a 16-bit priority and an
//! opaque payload; they leave by descending priority, and in arrival order among equal
//! priorities. Three storage strategies share one contract, stated over the queue in
//! pop order, so they are interchangeable. The protocol parser, the reply encoding, the
//! dump format and the connection ceiling are verified functions on plain values.

pub mod storage;
pub mod ordered_storage;
pub mod simple_storage;
pub mod hash_storage;
pub mod codec;
pub mod protocol;
pub mod connection;
pub mod server;
pub mod replay;
