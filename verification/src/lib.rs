//! A bounded, in-process key/value cache engine with interchangeable
//! eviction strategies.
//!
//! The engine stores integer identifiers with a pair of opaque handles and
//! keeps, for the bounded strategies, an auxiliary ordering that decides
//! which entry leaves when a full cache admits a new identifier.

pub mod types;
pub mod policy;
pub mod model;
pub mod cache;
pub mod laws;
mod random;
mod store;

pub use cache::Cache;
pub use model::CacheModel;
pub use policy::PolicyState;
pub use types::{Admission, CacheError, Entry, Handle, Policy, Slot, UpdateReport};
