//! A bounded in-process key/value cache with SIEVE eviction and a TTL layer.
//!
//! The crate is organised around four pieces, leaves first:
//! - [`sieve::Sieve`]: the recency engine, an ordered queue of keys with one
//!   visited bit per entry and a persistent scan pointer (the hand).
//! - [`store::Store`]: the value store, an association of keys to values.
//! - [`sieve::ESieve`]: the bounded cache, composing the value store with the
//!   recency engine and keeping the two key sets in bijection.
//! - [`cache::CacheWithTTL`]: a decorator over any [`cache::Cache`] backend
//!   that stamps each value with an expiry time and purges lazily on read.

pub mod cache;
pub mod clock;
pub mod sieve;
pub mod store;
