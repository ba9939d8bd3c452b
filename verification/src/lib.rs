//! A cache-backed, deduplicating, rate-limited fetch pipeline for a remote
//! catalog of per-item metadata records.
//!
//! The library is split along the system's three components:
//!
//! - [`store`]: the durable key-to-record mapping, with a verified binary
//!   encoding and corruption-tolerant loading ([`codec`] holds the encoding).
//! - [`client`]: the fetch client, which resolves one identifier through the
//!   cache first and prescribes a paced network request on a miss.
//! - [`pipeline`]: the identifier stage that flattens a manifest, removes
//!   duplicates and randomizes the order of the fetch loop.
//!
//! All I/O (reading and writing the cache file, the HTTP request itself, the
//! pacing sleep) is left to the surrounding program; the library computes
//! every decision from plain values and states what it computes.

pub mod client;
pub mod codec;
pub mod pipeline;
pub mod record;
pub mod store;
