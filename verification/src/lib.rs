//! Builds a salted reverse-lookup table over a fixed-width numeric keyspace:
//! every id in `[0, 10^digits)` is rendered as a fixed-width decimal string,
//! joined with a secret pepper, hashed with SHA-256, and emitted as one
//! tab-separated line of `id` and uppercase-hex digest.
//!
//! The verified core covers id formatting, the hashing sequence, job
//! partitioning, output-chunk assembly, and the fan-in bookkeeping of the
//! output aggregator; thread and channel plumbing stays outside the library.

pub mod error;
pub mod hash;
pub mod par;
