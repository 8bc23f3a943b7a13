//! A map over an ordered key domain that answers "as of key K" queries:
//! the value stored under the greatest key that does not exceed K.

pub mod facade;
pub mod index;
pub mod laws;
pub mod order;

pub use facade::LatestMap;
