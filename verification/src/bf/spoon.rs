//! A dialect that spells each instruction as a variable-length binary
//! prefix code.

use crate::bf;
use crate::syntax::prefix::{
    op_scan_used, scan_op, InsertError, OpScan, PrefixError, PrefixTable, SpecEntry, Tokens,
};
use crate::syntax::variant::VariantIndex;
use crate::text::iter::{EncodingError, Lexer, VecLexer};
use vstd::prelude::*;

verus! {

/// The two binary tokens of the dialect.
#[derive(Clone, Copy, Debug, PartialEq, Eq, PartialOrd, Ord, Hash, Structural)]
pub enum Token {
    /// `0`
    A,
    /// `1`
    B,
}

/// The dialect's instructions: the eight standard ones, a stack dump, and
/// an explicit quit.
#[derive(Clone, Copy, Debug, PartialEq, Eq, PartialOrd, Ord, Hash, Structural)]
pub enum Inst {
    Bf(bf::Inst),
    Debug,
    Exit,
}

impl VariantIndex for Token {
    open spec fn count_spec() -> u32 {
        2
    }

    open spec fn index_spec(&self) -> u32 {
        match *self {
            Token::A => 0,
            Token::B => 1,
        }
    }

    open spec fn variant_spec(index: u32) -> Token {
        if index == 0 {
            Token::A
        } else {
            Token::B
        }
    }

    fn count() -> (r: u32)
        ensures
            r == Self::count_spec(),
    {
        2
    }

    fn variant(index: u32) -> (r: Token)
        ensures
            r == Self::variant_spec(index),
    {
        if index == 0 {
            Token::A
        } else {
            Token::B
        }
    }

    fn index(&self) -> (r: u32)
        ensures
            r == self.index_spec(),
            r < Self::count_spec(),
    {
        match *self {
            Token::A => 0,
            Token::B => 1,
        }
    }

    proof fn lemma_index_valid(&self)
        ensures
            self.index_spec() < Self::count_spec(),
            Self::variant_spec(self.index_spec()) == *self,
    {
    }
}

impl VariantIndex for Inst {
    open spec fn count_spec() -> u32 {
        10
    }

    open spec fn index_spec(&self) -> u32 {
        match *self {
            Inst::Bf(i) => i.index_spec(),
            Inst::Debug => 8,
            Inst::Exit => 9,
        }
    }

    open spec fn variant_spec(index: u32) -> Inst {
        if index < 8 {
            Inst::Bf(bf::Inst::variant_spec(index))
        } else if index == 8 {
            Inst::Debug
        } else {
            Inst::Exit
        }
    }

    fn count() -> (r: u32)
        ensures
            r == Self::count_spec(),
    {
        10
    }

    fn variant(index: u32) -> (r: Inst)
        ensures
            r == Self::variant_spec(index),
    {
        if index < 8 {
            Inst::Bf(bf::Inst::variant(index))
        } else if index == 8 {
            Inst::Debug
        } else {
            Inst::Exit
        }
    }

    fn index(&self) -> (r: u32)
        ensures
            r == self.index_spec(),
            r < Self::count_spec(),
    {
        match *self {
            Inst::Bf(i) => i.index(),
            Inst::Debug => 8,
            Inst::Exit => 9,
        }
    }

    proof fn lemma_index_valid(&self)
        ensures
            self.index_spec() < Self::count_spec(),
            Self::variant_spec(self.index_spec()) == *self,
    {
        match *self {
            Inst::Bf(i) => {
                i.lemma_index_valid();
            },
            _ => {},
        }
    }
}

impl Tokens for Inst {
    type Token = Token;

    open spec fn tokens_spec(&self) -> Seq<Token> {
        match *self {
            Inst::Bf(bf::Inst::Inc) => seq![Token::B],
            Inst::Bf(bf::Inst::Dec) => seq![Token::A, Token::A, Token::A],
            Inst::Bf(bf::Inst::Right) => seq![Token::A, Token::B, Token::A],
            Inst::Bf(bf::Inst::Left) => seq![Token::A, Token::B, Token::B],
            Inst::Bf(bf::Inst::Tail) => seq![Token::A, Token::A, Token::B, Token::B],
            Inst::Bf(bf::Inst::Head) => seq![Token::A, Token::A, Token::B, Token::A, Token::A],
            Inst::Bf(bf::Inst::Output) => seq![
                Token::A,
                Token::A,
                Token::B,
                Token::A,
                Token::B,
                Token::A,
            ],
            Inst::Bf(bf::Inst::Input) => seq![
                Token::A,
                Token::A,
                Token::B,
                Token::A,
                Token::B,
                Token::B,
                Token::A,
            ],
            Inst::Debug => seq![
                Token::A,
                Token::A,
                Token::B,
                Token::A,
                Token::B,
                Token::B,
                Token::B,
                Token::A,
            ],
            Inst::Exit => seq![
                Token::A,
                Token::A,
                Token::B,
                Token::A,
                Token::B,
                Token::B,
                Token::B,
                Token::B,
            ],
        }
    }

    fn tokens(&self) -> (r: Vec<Token>)
        ensures
            r@ == self.tokens_spec(),
    {
        let r: Vec<Token> = match *self {
            Inst::Bf(bf::Inst::Inc) => vec![Token::B],
            Inst::Bf(bf::Inst::Dec) => vec![Token::A, Token::A, Token::A],
            Inst::Bf(bf::Inst::Right) => vec![Token::A, Token::B, Token::A],
            Inst::Bf(bf::Inst::Left) => vec![Token::A, Token::B, Token::B],
            Inst::Bf(bf::Inst::Tail) => vec![Token::A, Token::A, Token::B, Token::B],
            Inst::Bf(bf::Inst::Head) => vec![
                Token::A,
                Token::A,
                Token::B,
                Token::A,
                Token::A,
            ],
            Inst::Bf(bf::Inst::Output) => vec![
                Token::A,
                Token::A,
                Token::B,
                Token::A,
                Token::B,
                Token::A,
            ],
            Inst::Bf(bf::Inst::Input) => vec![
                Token::A,
                Token::A,
                Token::B,
                Token::A,
                Token::B,
                Token::B,
                Token::A,
            ],
            Inst::Debug => vec![
                Token::A,
                Token::A,
                Token::B,
                Token::A,
                Token::B,
                Token::B,
                Token::B,
                Token::A,
            ],
            Inst::Exit => vec![
                Token::A,
                Token::A,
                Token::B,
                Token::A,
                Token::B,
                Token::B,
                Token::B,
                Token::B,
            ],
        };
        proof {
            assert(r@ =~= self.tokens_spec());
        }
        r
    }
}

/// The scalar code of each instruction's full spelling.
pub open spec fn spelling_code(j: u32) -> int {
    if j == 0 {
        9
    } else if j == 1 {
        10
    } else if j == 2 {
        2
    } else if j == 3 {
        7
    } else if j == 4 {
        73
    } else if j == 5 {
        149
    } else if j == 6 {
        35
    } else if j == 7 {
        18
    } else if j == 8 {
        301
    } else {
        302
    }
}

/// How many tokens each spelling holds.
pub open spec fn spelling_len(j: u32) -> int {
    if j == 0 {
        3
    } else if j == 1 {
        3
    } else if j == 2 {
        1
    } else if j == 3 {
        3
    } else if j == 4 {
        6
    } else if j == 5 {
        7
    } else if j == 6 {
        5
    } else if j == 7 {
        4
    } else if j == 8 {
        8
    } else {
        8
    }
}

/// The codes of the strict prefixes the ten spellings walk; no full
/// spelling's code is among them.
pub open spec fn prefix_code(c: int) -> bool {
    c == 0 || c == 1 || c == 3 || c == 4 || c == 8 || c == 17 || c == 36 || c == 74 || c == 150
}

/// The concrete shape of every spelling: its length, its full code, and
/// that every strict-prefix position it walks is a prefix code.
proof fn lemma_spellings()
    ensures
        forall|j: u32|
            j < 10 ==> (#[trigger] Inst::variant_spec(j).tokens_spec()).len() == spelling_len(j),
        forall|j: u32|
            j < 10 ==> crate::syntax::token_seq::seq_encode(
                #[trigger] Inst::variant_spec(j).tokens_spec(),
            ) == spelling_code(j),
        forall|j: u32, k: int|
            j < 10 && 0 <= k < spelling_len(j) ==> prefix_code(
                #[trigger] crate::syntax::prefix::step_code::<Token>(
                    Inst::variant_spec(j).tokens_spec(),
                    k,
                ),
            ),
{
    assert forall|j: u32| j < 10 implies {
        let s = #[trigger] Inst::variant_spec(j).tokens_spec();
        &&& s.len() == spelling_len(j)
        &&& crate::syntax::token_seq::seq_encode(s) == spelling_code(j)
        &&& forall|k: int|
            0 <= k < spelling_len(j) ==> prefix_code(
                #[trigger] crate::syntax::prefix::step_code::<Token>(s, k),
            )
    } by {
        if j == 0 {
            let s = seq![Token::A, Token::B, Token::A];
            assert(Inst::variant_spec(0).tokens_spec() =~= s);
            crate::syntax::prefix::lemma_step_code_zero::<Token>(s);
            crate::syntax::prefix::lemma_step_code_succ::<Token>(s, 0);
            assert(crate::syntax::prefix::step_code::<Token>(s, 1) == 1);
            crate::syntax::prefix::lemma_step_code_succ::<Token>(s, 1);
            assert(crate::syntax::prefix::step_code::<Token>(s, 2) == 4);
            crate::syntax::prefix::lemma_step_code_succ::<Token>(s, 2);
            assert(crate::syntax::prefix::step_code::<Token>(s, 3) == 9);
            crate::syntax::prefix::lemma_step_code_full::<Token>(s);
            assert(crate::syntax::token_seq::seq_encode(s) == 9);
            assert forall|k: int| 0 <= k < s.len() implies prefix_code(
                crate::syntax::prefix::step_code::<Token>(s, k),
            ) by {
                if k == 0 {
                    assert(crate::syntax::prefix::step_code::<Token>(s, k) == 0);
                }
                else if k == 1 {
                    assert(crate::syntax::prefix::step_code::<Token>(s, k) == 1);
                }
                else if k == 2 {
                    assert(crate::syntax::prefix::step_code::<Token>(s, k) == 4);
                }
            }
        }
        else if j == 1 {
            let s = seq![Token::A, Token::B, Token::B];
            assert(Inst::variant_spec(1).tokens_spec() =~= s);
            crate::syntax::prefix::lemma_step_code_zero::<Token>(s);
            crate::syntax::prefix::lemma_step_code_succ::<Token>(s, 0);
            assert(crate::syntax::prefix::step_code::<Token>(s, 1) == 1);
            crate::syntax::prefix::lemma_step_code_succ::<Token>(s, 1);
            assert(crate::syntax::prefix::step_code::<Token>(s, 2) == 4);
            crate::syntax::prefix::lemma_step_code_succ::<Token>(s, 2);
            assert(crate::syntax::prefix::step_code::<Token>(s, 3) == 10);
            crate::syntax::prefix::lemma_step_code_full::<Token>(s);
            assert(crate::syntax::token_seq::seq_encode(s) == 10);
            assert forall|k: int| 0 <= k < s.len() implies prefix_code(
                crate::syntax::prefix::step_code::<Token>(s, k),
            ) by {
                if k == 0 {
                    assert(crate::syntax::prefix::step_code::<Token>(s, k) == 0);
                }
                else if k == 1 {
                    assert(crate::syntax::prefix::step_code::<Token>(s, k) == 1);
                }
                else if k == 2 {
                    assert(crate::syntax::prefix::step_code::<Token>(s, k) == 4);
                }
            }
        }
        else if j == 2 {
            let s = seq![Token::B];
            assert(Inst::variant_spec(2).tokens_spec() =~= s);
            crate::syntax::prefix::lemma_step_code_zero::<Token>(s);
            crate::syntax::prefix::lemma_step_code_succ::<Token>(s, 0);
            assert(crate::syntax::prefix::step_code::<Token>(s, 1) == 2);
            crate::syntax::prefix::lemma_step_code_full::<Token>(s);
            assert(crate::syntax::token_seq::seq_encode(s) == 2);
            assert forall|k: int| 0 <= k < s.len() implies prefix_code(
                crate::syntax::prefix::step_code::<Token>(s, k),
            ) by {
                if k == 0 {
                    assert(crate::syntax::prefix::step_code::<Token>(s, k) == 0);
                }
            }
        }
        else if j == 3 {
            let s = seq![Token::A, Token::A, Token::A];
            assert(Inst::variant_spec(3).tokens_spec() =~= s);
            crate::syntax::prefix::lemma_step_code_zero::<Token>(s);
            crate::syntax::prefix::lemma_step_code_succ::<Token>(s, 0);
            assert(crate::syntax::prefix::step_code::<Token>(s, 1) == 1);
            crate::syntax::prefix::lemma_step_code_succ::<Token>(s, 1);
            assert(crate::syntax::prefix::step_code::<Token>(s, 2) == 3);
            crate::syntax::prefix::lemma_step_code_succ::<Token>(s, 2);
            assert(crate::syntax::prefix::step_code::<Token>(s, 3) == 7);
            crate::syntax::prefix::lemma_step_code_full::<Token>(s);
            assert(crate::syntax::token_seq::seq_encode(s) == 7);
            assert forall|k: int| 0 <= k < s.len() implies prefix_code(
                crate::syntax::prefix::step_code::<Token>(s, k),
            ) by {
                if k == 0 {
                    assert(crate::syntax::prefix::step_code::<Token>(s, k) == 0);
                }
                else if k == 1 {
                    assert(crate::syntax::prefix::step_code::<Token>(s, k) == 1);
                }
                else if k == 2 {
                    assert(crate::syntax::prefix::step_code::<Token>(s, k) == 3);
                }
            }
        }
        else if j == 4 {
            let s = seq![Token::A, Token::A, Token::B, Token::A, Token::B, Token::A];
            assert(Inst::variant_spec(4).tokens_spec() =~= s);
            crate::syntax::prefix::lemma_step_code_zero::<Token>(s);
            crate::syntax::prefix::lemma_step_code_succ::<Token>(s, 0);
            assert(crate::syntax::prefix::step_code::<Token>(s, 1) == 1);
            crate::syntax::prefix::lemma_step_code_succ::<Token>(s, 1);
            assert(crate::syntax::prefix::step_code::<Token>(s, 2) == 3);
            crate::syntax::prefix::lemma_step_code_succ::<Token>(s, 2);
            assert(crate::syntax::prefix::step_code::<Token>(s, 3) == 8);
            crate::syntax::prefix::lemma_step_code_succ::<Token>(s, 3);
            assert(crate::syntax::prefix::step_code::<Token>(s, 4) == 17);
            crate::syntax::prefix::lemma_step_code_succ::<Token>(s, 4);
            assert(crate::syntax::prefix::step_code::<Token>(s, 5) == 36);
            crate::syntax::prefix::lemma_step_code_succ::<Token>(s, 5);
            assert(crate::syntax::prefix::step_code::<Token>(s, 6) == 73);
            crate::syntax::prefix::lemma_step_code_full::<Token>(s);
            assert(crate::syntax::token_seq::seq_encode(s) == 73);
            assert forall|k: int| 0 <= k < s.len() implies prefix_code(
                crate::syntax::prefix::step_code::<Token>(s, k),
            ) by {
                if k == 0 {
                    assert(crate::syntax::prefix::step_code::<Token>(s, k) == 0);
                }
                else if k == 1 {
                    assert(crate::syntax::prefix::step_code::<Token>(s, k) == 1);
                }
                else if k == 2 {
                    assert(crate::syntax::prefix::step_code::<Token>(s, k) == 3);
                }
                else if k == 3 {
                    assert(crate::syntax::prefix::step_code::<Token>(s, k) == 8);
                }
                else if k == 4 {
                    assert(crate::syntax::prefix::step_code::<Token>(s, k) == 17);
                }
                else if k == 5 {
                    assert(crate::syntax::prefix::step_code::<Token>(s, k) == 36);
                }
            }
        }
        else if j == 5 {
            let s = seq![Token::A, Token::A, Token::B, Token::A, Token::B, Token::B, Token::A];
            assert(Inst::variant_spec(5).tokens_spec() =~= s);
            crate::syntax::prefix::lemma_step_code_zero::<Token>(s);
            crate::syntax::prefix::lemma_step_code_succ::<Token>(s, 0);
            assert(crate::syntax::prefix::step_code::<Token>(s, 1) == 1);
            crate::syntax::prefix::lemma_step_code_succ::<Token>(s, 1);
            assert(crate::syntax::prefix::step_code::<Token>(s, 2) == 3);
            crate::syntax::prefix::lemma_step_code_succ::<Token>(s, 2);
            assert(crate::syntax::prefix::step_code::<Token>(s, 3) == 8);
            crate::syntax::prefix::lemma_step_code_succ::<Token>(s, 3);
            assert(crate::syntax::prefix::step_code::<Token>(s, 4) == 17);
            crate::syntax::prefix::lemma_step_code_succ::<Token>(s, 4);
            assert(crate::syntax::prefix::step_code::<Token>(s, 5) == 36);
            crate::syntax::prefix::lemma_step_code_succ::<Token>(s, 5);
            assert(crate::syntax::prefix::step_code::<Token>(s, 6) == 74);
            crate::syntax::prefix::lemma_step_code_succ::<Token>(s, 6);
            assert(crate::syntax::prefix::step_code::<Token>(s, 7) == 149);
            crate::syntax::prefix::lemma_step_code_full::<Token>(s);
            assert(crate::syntax::token_seq::seq_encode(s) == 149);
            assert forall|k: int| 0 <= k < s.len() implies prefix_code(
                crate::syntax::prefix::step_code::<Token>(s, k),
            ) by {
                if k == 0 {
                    assert(crate::syntax::prefix::step_code::<Token>(s, k) == 0);
                }
                else if k == 1 {
                    assert(crate::syntax::prefix::step_code::<Token>(s, k) == 1);
                }
                else if k == 2 {
                    assert(crate::syntax::prefix::step_code::<Token>(s, k) == 3);
                }
                else if k == 3 {
                    assert(crate::syntax::prefix::step_code::<Token>(s, k) == 8);
                }
                else if k == 4 {
                    assert(crate::syntax::prefix::step_code::<Token>(s, k) == 17);
                }
                else if k == 5 {
                    assert(crate::syntax::prefix::step_code::<Token>(s, k) == 36);
                }
                else if k == 6 {
                    assert(crate::syntax::prefix::step_code::<Token>(s, k) == 74);
                }
            }
        }
        else if j == 6 {
            let s = seq![Token::A, Token::A, Token::B, Token::A, Token::A];
            assert(Inst::variant_spec(6).tokens_spec() =~= s);
            crate::syntax::prefix::lemma_step_code_zero::<Token>(s);
            crate::syntax::prefix::lemma_step_code_succ::<Token>(s, 0);
            assert(crate::syntax::prefix::step_code::<Token>(s, 1) == 1);
            crate::syntax::prefix::lemma_step_code_succ::<Token>(s, 1);
            assert(crate::syntax::prefix::step_code::<Token>(s, 2) == 3);
            crate::syntax::prefix::lemma_step_code_succ::<Token>(s, 2);
            assert(crate::syntax::prefix::step_code::<Token>(s, 3) == 8);
            crate::syntax::prefix::lemma_step_code_succ::<Token>(s, 3);
            assert(crate::syntax::prefix::step_code::<Token>(s, 4) == 17);
            crate::syntax::prefix::lemma_step_code_succ::<Token>(s, 4);
            assert(crate::syntax::prefix::step_code::<Token>(s, 5) == 35);
            crate::syntax::prefix::lemma_step_code_full::<Token>(s);
            assert(crate::syntax::token_seq::seq_encode(s) == 35);
            assert forall|k: int| 0 <= k < s.len() implies prefix_code(
                crate::syntax::prefix::step_code::<Token>(s, k),
            ) by {
                if k == 0 {
                    assert(crate::syntax::prefix::step_code::<Token>(s, k) == 0);
                }
                else if k == 1 {
                    assert(crate::syntax::prefix::step_code::<Token>(s, k) == 1);
                }
                else if k == 2 {
                    assert(crate::syntax::prefix::step_code::<Token>(s, k) == 3);
                }
                else if k == 3 {
                    assert(crate::syntax::prefix::step_code::<Token>(s, k) == 8);
                }
                else if k == 4 {
                    assert(crate::syntax::prefix::step_code::<Token>(s, k) == 17);
                }
            }
        }
        else if j == 7 {
            let s = seq![Token::A, Token::A, Token::B, Token::B];
            assert(Inst::variant_spec(7).tokens_spec() =~= s);
            crate::syntax::prefix::lemma_step_code_zero::<Token>(s);
            crate::syntax::prefix::lemma_step_code_succ::<Token>(s, 0);
            assert(crate::syntax::prefix::step_code::<Token>(s, 1) == 1);
            crate::syntax::prefix::lemma_step_code_succ::<Token>(s, 1);
            assert(crate::syntax::prefix::step_code::<Token>(s, 2) == 3);
            crate::syntax::prefix::lemma_step_code_succ::<Token>(s, 2);
            assert(crate::syntax::prefix::step_code::<Token>(s, 3) == 8);
            crate::syntax::prefix::lemma_step_code_succ::<Token>(s, 3);
            assert(crate::syntax::prefix::step_code::<Token>(s, 4) == 18);
            crate::syntax::prefix::lemma_step_code_full::<Token>(s);
            assert(crate::syntax::token_seq::seq_encode(s) == 18);
            assert forall|k: int| 0 <= k < s.len() implies prefix_code(
                crate::syntax::prefix::step_code::<Token>(s, k),
            ) by {
                if k == 0 {
                    assert(crate::syntax::prefix::step_code::<Token>(s, k) == 0);
                }
                else if k == 1 {
                    assert(crate::syntax::prefix::step_code::<Token>(s, k) == 1);
                }
                else if k == 2 {
                    assert(crate::syntax::prefix::step_code::<Token>(s, k) == 3);
                }
                else if k == 3 {
                    assert(crate::syntax::prefix::step_code::<Token>(s, k) == 8);
                }
            }
        }
        else if j == 8 {
            let s = seq![Token::A, Token::A, Token::B, Token::A, Token::B, Token::B, Token::B, Token::A];
            assert(Inst::variant_spec(8).tokens_spec() =~= s);
            crate::syntax::prefix::lemma_step_code_zero::<Token>(s);
            crate::syntax::prefix::lemma_step_code_succ::<Token>(s, 0);
            assert(crate::syntax::prefix::step_code::<Token>(s, 1) == 1);
            crate::syntax::prefix::lemma_step_code_succ::<Token>(s, 1);
            assert(crate::syntax::prefix::step_code::<Token>(s, 2) == 3);
            crate::syntax::prefix::lemma_step_code_succ::<Token>(s, 2);
            assert(crate::syntax::prefix::step_code::<Token>(s, 3) == 8);
            crate::syntax::prefix::lemma_step_code_succ::<Token>(s, 3);
            assert(crate::syntax::prefix::step_code::<Token>(s, 4) == 17);
            crate::syntax::prefix::lemma_step_code_succ::<Token>(s, 4);
            assert(crate::syntax::prefix::step_code::<Token>(s, 5) == 36);
            crate::syntax::prefix::lemma_step_code_succ::<Token>(s, 5);
            assert(crate::syntax::prefix::step_code::<Token>(s, 6) == 74);
            crate::syntax::prefix::lemma_step_code_succ::<Token>(s, 6);
            assert(crate::syntax::prefix::step_code::<Token>(s, 7) == 150);
            crate::syntax::prefix::lemma_step_code_succ::<Token>(s, 7);
            assert(crate::syntax::prefix::step_code::<Token>(s, 8) == 301);
            crate::syntax::prefix::lemma_step_code_full::<Token>(s);
            assert(crate::syntax::token_seq::seq_encode(s) == 301);
            assert forall|k: int| 0 <= k < s.len() implies prefix_code(
                crate::syntax::prefix::step_code::<Token>(s, k),
            ) by {
                if k == 0 {
                    assert(crate::syntax::prefix::step_code::<Token>(s, k) == 0);
                }
                else if k == 1 {
                    assert(crate::syntax::prefix::step_code::<Token>(s, k) == 1);
                }
                else if k == 2 {
                    assert(crate::syntax::prefix::step_code::<Token>(s, k) == 3);
                }
                else if k == 3 {
                    assert(crate::syntax::prefix::step_code::<Token>(s, k) == 8);
                }
                else if k == 4 {
                    assert(crate::syntax::prefix::step_code::<Token>(s, k) == 17);
                }
                else if k == 5 {
                    assert(crate::syntax::prefix::step_code::<Token>(s, k) == 36);
                }
                else if k == 6 {
                    assert(crate::syntax::prefix::step_code::<Token>(s, k) == 74);
                }
                else if k == 7 {
                    assert(crate::syntax::prefix::step_code::<Token>(s, k) == 150);
                }
            }
        }
        else {
            let s = seq![Token::A, Token::A, Token::B, Token::A, Token::B, Token::B, Token::B, Token::B];
            assert(Inst::variant_spec(9).tokens_spec() =~= s);
            crate::syntax::prefix::lemma_step_code_zero::<Token>(s);
            crate::syntax::prefix::lemma_step_code_succ::<Token>(s, 0);
            assert(crate::syntax::prefix::step_code::<Token>(s, 1) == 1);
            crate::syntax::prefix::lemma_step_code_succ::<Token>(s, 1);
            assert(crate::syntax::prefix::step_code::<Token>(s, 2) == 3);
            crate::syntax::prefix::lemma_step_code_succ::<Token>(s, 2);
            assert(crate::syntax::prefix::step_code::<Token>(s, 3) == 8);
            crate::syntax::prefix::lemma_step_code_succ::<Token>(s, 3);
            assert(crate::syntax::prefix::step_code::<Token>(s, 4) == 17);
            crate::syntax::prefix::lemma_step_code_succ::<Token>(s, 4);
            assert(crate::syntax::prefix::step_code::<Token>(s, 5) == 36);
            crate::syntax::prefix::lemma_step_code_succ::<Token>(s, 5);
            assert(crate::syntax::prefix::step_code::<Token>(s, 6) == 74);
            crate::syntax::prefix::lemma_step_code_succ::<Token>(s, 6);
            assert(crate::syntax::prefix::step_code::<Token>(s, 7) == 150);
            crate::syntax::prefix::lemma_step_code_succ::<Token>(s, 7);
            assert(crate::syntax::prefix::step_code::<Token>(s, 8) == 302);
            crate::syntax::prefix::lemma_step_code_full::<Token>(s);
            assert(crate::syntax::token_seq::seq_encode(s) == 302);
            assert forall|k: int| 0 <= k < s.len() implies prefix_code(
                crate::syntax::prefix::step_code::<Token>(s, k),
            ) by {
                if k == 0 {
                    assert(crate::syntax::prefix::step_code::<Token>(s, k) == 0);
                }
                else if k == 1 {
                    assert(crate::syntax::prefix::step_code::<Token>(s, k) == 1);
                }
                else if k == 2 {
                    assert(crate::syntax::prefix::step_code::<Token>(s, k) == 3);
                }
                else if k == 3 {
                    assert(crate::syntax::prefix::step_code::<Token>(s, k) == 8);
                }
                else if k == 4 {
                    assert(crate::syntax::prefix::step_code::<Token>(s, k) == 17);
                }
                else if k == 5 {
                    assert(crate::syntax::prefix::step_code::<Token>(s, k) == 36);
                }
                else if k == 6 {
                    assert(crate::syntax::prefix::step_code::<Token>(s, k) == 74);
                }
                else if k == 7 {
                    assert(crate::syntax::prefix::step_code::<Token>(s, k) == 150);
                }
            }
        }
    }
}

/// No step of registering the ten spellings in order hits a conflict: no
/// prefix position is any full code, and the full codes are pairwise
/// distinct.
proof fn lemma_no_spelling_conflicts()
    ensures
        forall|j: u32|
            j < 10 ==> !crate::syntax::prefix::insert_conflicts(
                crate::syntax::prefix::insert_all_fold::<Token, Inst>(Map::empty(), j as int),
                #[trigger] Inst::variant_spec(j).tokens_spec(),
            ),
{
    lemma_spellings();
    let m0 = Map::<int, SpecEntry<Inst>>::empty();
    assert forall|j: u32| j < 10 implies !crate::syntax::prefix::insert_conflicts(
        crate::syntax::prefix::insert_all_fold::<Token, Inst>(m0, j as int),
        #[trigger] Inst::variant_spec(j).tokens_spec(),
    ) by {
        let s = Inst::variant_spec(j).tokens_spec();
        let fold = crate::syntax::prefix::insert_all_fold::<Token, Inst>(m0, j as int);
        assert(s.len() == spelling_len(j));
        assert(spelling_len(j) >= 1);
        assert forall|k2: int|
            0 <= k2 < s.len() implies !crate::syntax::prefix::is_terminal_at(
            fold,
            crate::syntax::prefix::step_code::<Token>(s, k2),
        ) by {
            assert(prefix_code(crate::syntax::prefix::step_code::<Token>(s, k2)));
            if crate::syntax::prefix::is_terminal_at(
                fold,
                crate::syntax::prefix::step_code::<Token>(s, k2),
            ) {
                crate::syntax::prefix::lemma_fold_terminal_src::<Token, Inst>(
                    m0,
                    j as int,
                    crate::syntax::prefix::step_code::<Token>(s, k2),
                );
                let i = choose|i: int|
                    0 <= i < j && crate::syntax::prefix::step_code::<Token>(s, k2)
                        == crate::syntax::token_seq::seq_encode(
                        #[trigger] Inst::variant_spec(i as u32).tokens_spec(),
                    );
                assert(!prefix_code(spelling_code(i as u32)));
                assert(false);
            }
        }
        if fold.contains_key(crate::syntax::token_seq::seq_encode(s)) {
            crate::syntax::prefix::lemma_fold_key_src::<Token, Inst>(
                m0,
                j as int,
                crate::syntax::token_seq::seq_encode(s),
            );
            let x = crate::syntax::token_seq::seq_encode(s);
            let i = choose|i: int|
                0 <= i < j && (x == crate::syntax::token_seq::seq_encode(
                    #[trigger] Inst::variant_spec(i as u32).tokens_spec(),
                ) || exists|k: int|
                    0 <= k < Inst::variant_spec(i as u32).tokens_spec().len() && x
                        == #[trigger] crate::syntax::prefix::step_code(
                        Inst::variant_spec(i as u32).tokens_spec(),
                        k,
                    ));
            if x == crate::syntax::token_seq::seq_encode(
                Inst::variant_spec(i as u32).tokens_spec(),
            ) {
                assert(spelling_code(j) == spelling_code(i as u32));
                assert(false);
            } else {
                assert(prefix_code(x));
                assert(!prefix_code(spelling_code(j)));
                assert(false);
            }
        }
        crate::syntax::prefix::lemma_conflict_free(fold, s, 0);
    }
}

/// Builds the dialect's prefix table: all ten instructions under their
/// binary spellings. The spellings are a fixed, prefix-free set, so
/// construction always succeeds.
pub fn table() -> (r: Result<PrefixTable<Token, Inst>, InsertError<Token, Inst>>)
    ensures
        r matches Ok(t),
        r matches Ok(t) ==> {
            &&& t.wf()
            &&& t@ == crate::syntax::prefix::insert_all_fold::<Token, Inst>(Map::empty(), 10)
            &&& forall|j: u32|
                j < 10 ==> crate::syntax::prefix::table_registers(
                    t@,
                    #[trigger] Inst::variant_spec(j),
                    Inst::variant_spec(j).tokens_spec(),
                )
        },
{
    let mut t: PrefixTable<Token, Inst> = PrefixTable::new(11);
    proof {
        assert(t@ =~= Map::<int, SpecEntry<Inst>>::empty());
        assert forall|j: u32| j < 10 implies crate::syntax::token_seq::seq_encode(
            #[trigger] Inst::variant_spec(j).tokens_spec(),
        ) <= u32::MAX by {
            crate::syntax::prefix::seq_valid_from_exec::<Token>(
                Inst::variant_spec(j).tokens_spec(),
            );
            crate::syntax::token_seq::lemma_encode_exp_bound(Inst::variant_spec(j).tokens_spec());
            crate::syntax::token_seq::lemma_p4_mono(
                Inst::variant_spec(j).tokens_spec().len() as int,
                8,
            );
            assert(crate::syntax::token_seq::p4(8) == 65536) by {
                reveal_with_fuel(crate::syntax::token_seq::p4, 9);
            }
        }
    }
    match t.insert_all() {
        Ok(()) => Ok(t),
        Err(e) => {
            proof {
                lemma_no_spelling_conflicts();
            }
            Err(e)
        },
    }
}

/// The tokens a bit stream spells: each bit is one token, optionally with
/// the two values swapped.
pub open spec fn bits_tokens_spec(bits: Seq<bool>, swap: bool) -> Seq<Token> {
    bits.map_values(
        |b: bool|
            if b != swap {
                Token::B
            } else {
                Token::A
            },
    )
}

/// Reads each bit as one token, optionally with the two values swapped.
pub fn tokens_from_bits(bits: &Vec<bool>, swap: bool) -> (r: Vec<Token>)
    ensures
        r@ == bits_tokens_spec(bits@, swap),
{
    let n = bits.len();
    let mut r: Vec<Token> = Vec::new();
    let mut i: usize = 0;
    while i < n
        invariant
            n == bits@.len(),
            i <= n,
            r@.len() == i,
            forall|k: int|
                0 <= k < i ==> #[trigger] r@[k] == (if bits@[k] != swap {
                    Token::B
                } else {
                    Token::A
                }),
        decreases n - i,
    {
        let tok = if bits[i] != swap {
            Token::B
        } else {
            Token::A
        };
        r.push(tok);
        i = i + 1;
    }
    proof {
        assert(r@ =~= bits_tokens_spec(bits@, swap));
    }
    r
}

/// One decoded item, as a mathematical value: an instruction, or some
/// decode error.
pub ghost enum SpoonItem {
    Good(Inst),
    Bad,
}

/// Every instruction the table decodes from a token stream, each scan
/// starting from the empty sequence.
pub open spec fn decode_all(
    m: Map<int, SpecEntry<Inst>>,
    s: Seq<Result<Token, EncodingError>>,
) -> Seq<SpoonItem>
    decreases s.len(),
{
    if s.len() == 0 {
        Seq::empty()
    } else {
        let sc = scan_op::<Token, Inst>(m, 0, s);
        let used = op_scan_used(sc);
        let step: int = if 1 <= used <= s.len() {
            used
        } else {
            1
        };
        let item = match sc {
            OpScan::Found { op, .. } => SpoonItem::Good(op),
            _ => SpoonItem::Bad,
        };
        seq![item] + decode_all(m, s.skip(step))
    }
}

/// Decodes a whole token list against the dialect's table: each element is
/// the next instruction, or the error that stopped that scan.
pub fn parse_all(t: &PrefixTable<Token, Inst>, toks: &Vec<Token>) -> (r: Vec<
    Result<Inst, PrefixError<Token, Inst>>,
>)
    requires
        t.wf(),
    ensures
        ({
            let items = decode_all(t@, toks@.map_values(|k: Token| Ok::<Token, EncodingError>(k)));
            &&& r@.len() == items.len()
            &&& forall|i: int|
                0 <= i < items.len() ==> match #[trigger] items[i] {
                    SpoonItem::Good(op) => r@[i] == Ok::<Inst, PrefixError<Token, Inst>>(op),
                    SpoonItem::Bad => r@[i] is Err,
                }
        }),
{
    let mut lex = VecLexer::from_tokens(toks);
    let ghost s0 = lex.remaining();
    proof {
        assert(s0 =~= toks@.map_values(|k: Token| Ok::<Token, EncodingError>(k)));
    }
    let mut r: Vec<Result<Inst, PrefixError<Token, Inst>>> = Vec::new();
    loop
        invariant
            t.wf(),
            s0 == toks@.map_values(|k: Token| Ok::<Token, EncodingError>(k)),
            ({
                let items = decode_all(t@, s0);
                &&& r@.len() + decode_all(t@, lex.remaining()).len() == items.len()
                &&& forall|i: int|
                    0 <= i < r@.len() ==> match #[trigger] items[i] {
                        SpoonItem::Good(op) => r@[i] == Ok::<Inst, PrefixError<Token, Inst>>(
                            op,
                        ),
                        SpoonItem::Bad => r@[i] is Err,
                    }
                &&& decode_all(t@, s0).skip(r@.len() as int) == decode_all(t@, lex.remaining())
            }),
        decreases lex.remaining().len(),
    {
        let ghost pre = lex.remaining();
        match t.parse(&mut lex) {
            None => {
                proof {
                    if pre.len() > 0 {
                        lemma_scan_op_pos(t@, 0, pre);
                        assert(false);
                    }
                    assert(lex.remaining() == pre);
                    assert(decode_all(t@, lex.remaining()).len() == 0);
                    assert(r@.len() == decode_all(t@, s0).len());
                }
                return r;
            },
            Some(item) => {
                let ghost sc = scan_op::<Token, Inst>(t@, 0, pre);
                proof {
                    if pre.len() == 0 {
                        assert(sc is End);
                        assert(false);
                    }
                    crate::syntax::prefix::lemma_scan_op_used(t@, 0, pre);
                    lemma_scan_op_pos(t@, 0, pre);
                }
                r.push(item);
                proof {
                    let items = decode_all(t@, s0);
                    let oldn = r@.len() - 1;
                    assert(lex.remaining() =~= pre.skip(op_scan_used(sc)));
                    assert(decode_all(t@, pre) == seq![
                        match sc {
                            OpScan::Found { op, .. } => SpoonItem::Good(op),
                            _ => SpoonItem::Bad,
                        },
                    ] + decode_all(t@, lex.remaining()));
                    assert(items[oldn] == decode_all(t@, pre)[0]);
                    assert(items.skip(oldn + 1) =~= decode_all(t@, pre).skip(1));
                    assert(decode_all(t@, pre).skip(1) =~= decode_all(t@, lex.remaining()));
                }
            },
        }
    }
}

/// A scan over a nonempty stream never reports a clean end, and consumes
/// at least one item.
proof fn lemma_scan_op_pos(
    m: Map<int, SpecEntry<Inst>>,
    code: int,
    s: Seq<Result<Token, EncodingError>>,
)
    requires
        code >= 0,
        s.len() > 0,
    ensures
        !(scan_op::<Token, Inst>(m, code, s) is End),
        op_scan_used(scan_op::<Token, Inst>(m, code, s)) >= 1,
    decreases s.len(),
{
    match s[0] {
        Err(_) => {},
        Ok(tok) => {
            let code2 = code * Token::count_spec() + tok.index_spec() + 1;
            assert(code * Token::count_spec() >= 0) by (nonlinear_arith)
                requires
                    code >= 0,
            ;
            if !crate::syntax::prefix::is_terminal_at(m, code2) && m.contains_key(code2) {
                if s.drop_first().len() > 0 {
                    lemma_scan_op_pos(m, code2, s.drop_first());
                } else {
                    assert(scan_op::<Token, Inst>(m, code2, s.drop_first())
                        == (OpScan::<Inst>::Incomplete { code: code2, used: 0int }));
                }
            }
        },
    }
}

} // verus!
