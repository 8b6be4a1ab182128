//! An append-only operation log behind an in-memory key-value store.

pub mod outside;
pub mod error;
pub mod wire;
pub mod codec;
pub mod replay;
pub mod store;

pub use codec::Record;
pub use error::PerdsError;
pub use store::{Append, Perds, Strategy};
