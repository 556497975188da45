use crate::syntax::variant::VariantIndex;
use vstd::prelude::*;

verus! {

/// The three lexical tokens.
#[derive(Clone, Copy, Debug, PartialEq, Eq, PartialOrd, Ord, Hash, Structural)]
pub enum Token {
    /// Space
    S,
    /// Tab
    T,
    /// Line feed
    L,
}

impl VariantIndex for Token {
    open spec fn count_spec() -> u32 {
        3
    }

    open spec fn index_spec(&self) -> u32 {
        match *self {
            Token::S => 0,
            Token::T => 1,
            Token::L => 2,
        }
    }

    open spec fn variant_spec(index: u32) -> Token {
        if index == 0 {
            Token::S
        } else if index == 1 {
            Token::T
        } else {
            Token::L
        }
    }

    fn count() -> (r: u32)
        ensures
            r == Self::count_spec(),
    {
        3
    }

    fn variant(index: u32) -> (r: Token)
        ensures
            r == Self::variant_spec(index),
    {
        if index == 0 {
            Token::S
        } else if index == 1 {
            Token::T
        } else {
            Token::L
        }
    }

    fn index(&self) -> (r: u32)
        ensures
            r == self.index_spec(),
            r < Self::count_spec(),
    {
        match *self {
            Token::S => 0,
            Token::T => 1,
            Token::L => 2,
        }
    }

    proof fn lemma_index_valid(&self)
        ensures
            self.index_spec() < Self::count_spec(),
            Self::variant_spec(self.index_spec()) == *self,
    {
    }
}

} // verus!
