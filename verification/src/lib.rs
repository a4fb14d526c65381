//! A persistent, embeddable key/value storage engine with a wire front-end.
//!
//! String keys map to string values on an append-only log; an in-memory
//! index locates the live record for each key, and compaction rewrites
//! live records into a fresh log generation when too many bytes are stale.

pub mod client;
pub mod codec;
pub mod common;
pub mod engine;
pub mod error;
pub mod replay;
pub mod server;
pub mod store;

pub use engine::KvsEngine;
pub use error::KvsError;
pub use server::{KvsServer, ADDRESS_FORMAT, DEFAULT_LISTENING_ADDRESS};
pub use store::KvStore;
