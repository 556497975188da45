//! An extension of the token alphabet with two extra tokens, river and
//! crab, which some dialects read as an alternative way to end a program;
//! the other three map one-to-one onto the standard tokens.

use crate::ws;
use vstd::prelude::*;

verus! {

/// The five tokens of the extended alphabet.
#[derive(Clone, Copy, Debug, PartialEq, Eq, PartialOrd, Ord, Hash, Structural)]
pub enum Token {
    /// Grass: the space token.
    G,
    /// Mud: the tab token.
    M,
    /// Horse: the line-feed token.
    H,
    /// River: only meaningful paired with crab.
    R,
    /// Crab: only meaningful paired with river.
    C,
}

impl Token {
    /// The standard token this one stands for; river and crab stand for
    /// none.
    pub open spec fn as_ws_token_spec(self) -> Option<ws::token::Token> {
        match self {
            Token::G => Some(ws::token::Token::S),
            Token::M => Some(ws::token::Token::T),
            Token::H => Some(ws::token::Token::L),
            Token::R => None,
            Token::C => None,
        }
    }

    pub fn as_ws_token(&self) -> (r: Option<ws::token::Token>)
        ensures
            r == self.as_ws_token_spec(),
    {
        match *self {
            Token::G => Some(ws::token::Token::S),
            Token::M => Some(ws::token::Token::T),
            Token::H => Some(ws::token::Token::L),
            Token::R => None,
            Token::C => None,
        }
    }
}

/// An assignment of one character to each of the five tokens, pairwise
/// distinct.
#[derive(Clone, Copy, Debug, PartialEq, Eq, Hash)]
pub struct Mapping {
    g: char,
    m: char,
    h: char,
    r: char,
    c: char,
}

impl Mapping {
    /// The character assigned to a token.
    pub closed spec fn value_spec(&self, tok: Token) -> char {
        match tok {
            Token::G => self.g,
            Token::M => self.m,
            Token::H => self.h,
            Token::R => self.r,
            Token::C => self.c,
        }
    }

    pub open spec fn wf(&self) -> bool {
        forall|a: Token, b: Token| a != b ==> self.value_spec(a) != self.value_spec(b)
    }

    /// A mapping from five distinct characters; `None` when any two
    /// coincide.
    pub fn new(g: char, m: char, h: char, r: char, c: char) -> (res: Option<Self>)
        ensures
            match res {
                Some(mp) => mp.wf() && mp.value_spec(Token::G) == g && mp.value_spec(Token::M)
                    == m && mp.value_spec(Token::H) == h && mp.value_spec(Token::R) == r
                    && mp.value_spec(Token::C) == c,
                None => g == m || g == h || g == r || g == c || m == h || m == r || m == c || h
                    == r || h == c || r == c,
            },
    {
        if g == m || g == h || g == r || g == c || m == h || m == r || m == c || h == r || h == c
            || r == c {
            None
        } else {
            let mp = Mapping { g, m, h, r, c };
            proof {
                assert forall|a: Token, b: Token| a != b implies mp.value_spec(a)
                    != mp.value_spec(b) by {
                }
            }
            Some(mp)
        }
    }

    /// The token a character maps to, if any.
    pub fn map(&self, ch: char) -> (res: Option<Token>)
        ensures
            match res {
                Some(tok) => self.value_spec(tok) == ch,
                None => forall|tok: Token| self.value_spec(tok) != ch,
            },
    {
        if ch == self.g {
            Some(Token::G)
        } else if ch == self.m {
            Some(Token::M)
        } else if ch == self.h {
            Some(Token::H)
        } else if ch == self.r {
            Some(Token::R)
        } else if ch == self.c {
            Some(Token::C)
        } else {
            proof {
                assert forall|tok: Token| self.value_spec(tok) != ch by {
                }
            }
            None
        }
    }

    /// The character assigned to a token.
    pub fn map_token(&self, tok: Token) -> (res: char)
        ensures
            res == self.value_spec(tok),
    {
        match tok {
            Token::G => self.g,
            Token::M => self.m,
            Token::H => self.h,
            Token::R => self.r,
            Token::C => self.c,
        }
    }
}

impl Default for Mapping {
    /// The alphabet's traditional spelling.
    fn default() -> (r: Self)
        ensures
            r.value_spec(Token::G) == '草' && r.value_spec(Token::M) == '泥' && r.value_spec(
                Token::H,
            ) == '马' && r.value_spec(Token::R) == '河' && r.value_spec(Token::C) == '蟹',
    {
        Mapping { g: '草', m: '泥', h: '马', r: '河', c: '蟹' }
    }
}

} // verus!
