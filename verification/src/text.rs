//! Character and byte iteration over raw source text, and the token-source
//! abstraction the decoders pull from.

pub mod iter;
