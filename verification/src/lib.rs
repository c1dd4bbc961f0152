//! A bounded associative cache.
//!
//! [`cache::LimitedCache`] maps keys to values, never holds more
//! entries than the capacity fixed at construction, and makes room for
//! a fresh key by evicting the entry whose key was first inserted
//! longest ago.  The laws the cache obeys are stated and proved in
//! [`laws`].

pub mod cache;
pub mod laws;

pub use cache::LimitedCache;
