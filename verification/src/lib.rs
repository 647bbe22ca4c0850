//! Persisted-query resolution middleware: the verified core.
//!
//! A client may send a short document identifier in place of full query
//! text. This library decodes the request envelope, extracts the
//! identifier, classifies the resolver's reply, and rewrites the envelope
//! so the next pipeline stage sees a fully hydrated query.

pub mod codec;
pub mod extract;
pub mod pipeline;
pub mod policy;
pub mod resolver;
