//! A fixed-capacity key-value cache with least-recently-used eviction,
//! together with a line-oriented text serialization of its contents.
//!
//! The `cache` module holds the cache itself: a bounded collection of
//! entries, each carrying a recency rank drawn from a strictly increasing
//! counter.  The entry with the lowest rank is the eviction candidate.
//! The `persistence` module turns a cache into the text of a file (one
//! `key:value` line per entry, oldest first) and rebuilds a cache from
//! such text.  The `codec` module states what it means for keys and
//! values to be convertible to and from text.

pub mod cache;
pub mod codec;
pub mod persistence;
