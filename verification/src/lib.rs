//! Contact ranking over a mail archive.
//!
//! Given a typed name fragment, the library formulates the boolean search
//! that retrieves candidate messages, extracts `(address, display name)`
//! pairs from raw header values, filters them for relevance, aggregates
//! per-address counts, and ranks the result. The mail search engine itself,
//! configuration loading and the command line are external collaborators:
//! they live outside the library and hand it plain values.

pub mod aggregate;
pub mod extract;
pub mod pipeline;
pub mod query;
pub mod rank;
pub mod relevance;
pub mod text;
