//! A static, sorted, fixed-width key index.
//!
//! The index maps normalized byte-string keys to a one-character flag and a
//! numeric identifier.  It is built in one pass from a list of raw entities
//! and serialized as a sequence of fixed-width lines; point lookups run a
//! binary search over line-aligned offsets, so a reader never has to load
//! the whole index into memory.
//!
//! - [`keybytes`]: the byte alphabet, case folding, lexicographic order and
//!   decimal digit strings.
//! - [`layout`]: the on-disk line format, its well-formedness invariants,
//!   and what a lookup must return on a well-formed file.
//! - [`builder`]: normalization, deduplication, deterministic
//!   disambiguation, sorting and serialization.
//! - [`search`]: the seek-based binary search, as a step machine for
//!   callers that keep the file on disk and as a whole-image lookup.
//! - [`laws`]: round trip, negative lookup and build determinism, proved
//!   once for every well-formed index.
//! - [`queries`] and [`stats_model`]: the decision layer of the
//!   surrounding viewer, on plain values.

pub mod builder;
pub mod keybytes;
pub mod laws;
pub mod layout;
pub mod queries;
pub mod search;
pub mod stats_model;
