//! The whitespace-family instruction set: tokens, opcodes, the incremental
//! decoder, and the label resolver.

pub mod assembly;
pub mod bit_pack;
pub mod convert;
pub mod cursor;
pub mod inst;
pub mod int_literal;
pub mod integer;
pub mod gmh;
pub mod label;
pub mod lex;
pub mod parse;
pub mod source;
pub mod token;
