//! An append-only record store: payloads go to a content-addressed blob
//! store, and each stored payload gets a record with a time-ordered id in an
//! ordered index.
pub mod cas;
pub mod error;
pub mod ids;
pub mod index;
pub mod key;
pub mod laws;
pub mod record;
pub mod store;

pub use error::StoreError;
pub use record::Frame;
pub use store::{IngestMode, Store};
