//! A content-addressable storage engine.
//!
//! Values are serialized into a canonical byte encoding, hashed with
//! Blake2b-256, and stored in a pluggable backend keyed by that digest,
//! so that identical content always maps to the same key and storage
//! deduplicates naturally. Callers `put` values to obtain a digest and
//! `get` values back by digest.
//!
//! - [`hash`] holds the digest type and the streaming hasher.
//! - [`content`] holds the codec protocol: the wire-format
//!   specification of each storable type, and the executable
//!   serializer and deserializer it is held to.
//! - [`backend`] holds the pluggable blob store: an in-memory map and a
//!   discard-only variant; a disk-backed one can be plugged in from
//!   outside through the same contract.
//! - [`std_impls`] holds the codecs of the common standard types.
//! - [`lazy`] holds the memoizing, content-addressed reference that
//!   lets graphs of values be hashed, stored and partially fetched.
//! - [`store`] ties a backend to a value type and exposes `put` and
//!   `get`.
//!
//! Transitions of mutable state (caching a digest, persisting a value,
//! materializing one) are exclusive by Rust's borrow rules: every
//! method that may perform one takes its receiver exclusively, so the
//! expensive work happens at most once per reference and a later
//! caller observes the completed result.

pub mod backend;
pub mod content;
pub mod error;
pub mod hash;
pub mod lazy;
pub mod std_impls;
pub mod store;
