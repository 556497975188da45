//! Language-independent syntax primitives: finite token alphabets, the scalar
//! token-sequence encoding, and the prefix table used to match opcodes.

pub mod prefix;
pub mod token_seq;
pub mod variant;
