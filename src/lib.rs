//! A key-value store kept as an append-only log of records, with an index
//! from each live key to the offset of its latest `Set` record.

pub mod codec;
pub mod error;
pub mod laws;
pub mod replay;
pub mod store;

pub use error::KvStoreError;
pub use store::{KvStore, LogWrite};
