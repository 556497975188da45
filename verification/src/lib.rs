//! Decoder library for whitespace-family instruction sets: a compact integer
//! encoding of token sequences, a dense/sparse prefix trie over opcode
//! spellings, an incremental, resumable instruction decoder, and a label
//! resolver that assigns dense identifiers to raw bit-pattern labels.

pub mod bf;
pub mod syntax;
pub mod text;
pub mod ws;
