//! Bounded tracking of the largest and smallest price changes in a stream of
//! records, with shared, reference-counted descriptions.

pub mod amount;
pub mod record_pool;
pub mod registry;
pub mod data_store;
