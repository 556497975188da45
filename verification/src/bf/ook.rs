//! A dialect that spells each instruction as a pair of punctuation marks.

use crate::bf;
use crate::syntax::prefix::{InsertError, PrefixTable, Tokens};
use crate::syntax::variant::VariantIndex;
use vstd::prelude::*;

verus! {

/// The three punctuation tokens of the dialect.
#[derive(Clone, Copy, Debug, PartialEq, Eq, PartialOrd, Ord, Hash, Structural)]
pub enum Punct {
    /// `.`
    Period,
    /// `?`
    Question,
    /// `!`
    Bang,
}

/// The dialect's instructions: the eight standard ones, and an extension
/// whose behaviour its own specification leaves deliberately open — it is
/// parsed here but given no meaning.
#[derive(Clone, Copy, Debug, PartialEq, Eq, PartialOrd, Ord, Hash, Structural)]
pub enum Inst {
    Bf(bf::Inst),
    Banana,
}

impl VariantIndex for Punct {
    open spec fn count_spec() -> u32 {
        3
    }

    open spec fn index_spec(&self) -> u32 {
        match *self {
            Punct::Period => 0,
            Punct::Question => 1,
            Punct::Bang => 2,
        }
    }

    open spec fn variant_spec(index: u32) -> Punct {
        if index == 0 {
            Punct::Period
        } else if index == 1 {
            Punct::Question
        } else {
            Punct::Bang
        }
    }

    fn count() -> (r: u32)
        ensures
            r == Self::count_spec(),
    {
        3
    }

    fn variant(index: u32) -> (r: Punct)
        ensures
            r == Self::variant_spec(index),
    {
        if index == 0 {
            Punct::Period
        } else if index == 1 {
            Punct::Question
        } else {
            Punct::Bang
        }
    }

    fn index(&self) -> (r: u32)
        ensures
            r == self.index_spec(),
            r < Self::count_spec(),
    {
        match *self {
            Punct::Period => 0,
            Punct::Question => 1,
            Punct::Bang => 2,
        }
    }

    proof fn lemma_index_valid(&self)
        ensures
            self.index_spec() < Self::count_spec(),
            Self::variant_spec(self.index_spec()) == *self,
    {
    }
}

impl VariantIndex for Inst {
    open spec fn count_spec() -> u32 {
        9
    }

    open spec fn index_spec(&self) -> u32 {
        match *self {
            Inst::Bf(i) => i.index_spec(),
            Inst::Banana => 8,
        }
    }

    open spec fn variant_spec(index: u32) -> Inst {
        if index < 8 {
            Inst::Bf(bf::Inst::variant_spec(index))
        } else {
            Inst::Banana
        }
    }

    fn count() -> (r: u32)
        ensures
            r == Self::count_spec(),
    {
        9
    }

    fn variant(index: u32) -> (r: Inst)
        ensures
            r == Self::variant_spec(index),
    {
        if index < 8 {
            Inst::Bf(bf::Inst::variant(index))
        } else {
            Inst::Banana
        }
    }

    fn index(&self) -> (r: u32)
        ensures
            r == self.index_spec(),
            r < Self::count_spec(),
    {
        match *self {
            Inst::Bf(i) => i.index(),
            Inst::Banana => 8,
        }
    }

    proof fn lemma_index_valid(&self)
        ensures
            self.index_spec() < Self::count_spec(),
            Self::variant_spec(self.index_spec()) == *self,
    {
        match *self {
            Inst::Bf(i) => {
                i.lemma_index_valid();
            },
            Inst::Banana => {},
        }
    }
}

impl Tokens for Inst {
    type Token = Punct;

    open spec fn tokens_spec(&self) -> Seq<Punct> {
        match *self {
            Inst::Bf(bf::Inst::Right) => seq![Punct::Period, Punct::Question],
            Inst::Bf(bf::Inst::Left) => seq![Punct::Question, Punct::Period],
            Inst::Bf(bf::Inst::Inc) => seq![Punct::Period, Punct::Period],
            Inst::Bf(bf::Inst::Dec) => seq![Punct::Bang, Punct::Bang],
            Inst::Bf(bf::Inst::Input) => seq![Punct::Period, Punct::Bang],
            Inst::Bf(bf::Inst::Output) => seq![Punct::Bang, Punct::Period],
            Inst::Bf(bf::Inst::Head) => seq![Punct::Bang, Punct::Question],
            Inst::Bf(bf::Inst::Tail) => seq![Punct::Question, Punct::Bang],
            Inst::Banana => seq![Punct::Question, Punct::Question],
        }
    }

    fn tokens(&self) -> (r: Vec<Punct>)
        ensures
            r@ == self.tokens_spec(),
    {
        let r: Vec<Punct> = match *self {
            Inst::Bf(bf::Inst::Right) => vec![Punct::Period, Punct::Question],
            Inst::Bf(bf::Inst::Left) => vec![Punct::Question, Punct::Period],
            Inst::Bf(bf::Inst::Inc) => vec![Punct::Period, Punct::Period],
            Inst::Bf(bf::Inst::Dec) => vec![Punct::Bang, Punct::Bang],
            Inst::Bf(bf::Inst::Input) => vec![Punct::Period, Punct::Bang],
            Inst::Bf(bf::Inst::Output) => vec![Punct::Bang, Punct::Period],
            Inst::Bf(bf::Inst::Head) => vec![Punct::Bang, Punct::Question],
            Inst::Bf(bf::Inst::Tail) => vec![Punct::Question, Punct::Bang],
            Inst::Banana => vec![Punct::Question, Punct::Question],
        };
        proof {
            assert(r@ =~= self.tokens_spec());
        }
        r
    }
}

/// The scalar code of each instruction's full spelling.
pub open spec fn spelling_code(j: u32) -> int {
    if j == 0 {
        5
    } else if j == 1 {
        7
    } else if j == 2 {
        4
    } else if j == 3 {
        12
    } else if j == 4 {
        10
    } else if j == 5 {
        6
    } else if j == 6 {
        11
    } else if j == 7 {
        9
    } else {
        8
    }
}

/// The codes a two-mark spelling walks: the empty prefix, the one-mark
/// prefix, and the full pair.
proof fn lemma_pair_codes(a: Punct, b: Punct)
    ensures
        ({
            let s = seq![a, b];
            &&& s.len() == 2
            &&& crate::syntax::prefix::step_code::<Punct>(s, 0) == 0
            &&& crate::syntax::prefix::step_code::<Punct>(s, 1) == a.index_spec() + 1
            &&& crate::syntax::token_seq::seq_encode(s) == (a.index_spec() + 1) * 3
                + b.index_spec() + 1
        }),
{
    let s = seq![a, b];
    assert(s.take(0) =~= Seq::<Punct>::empty());
    assert(s.take(1) =~= seq![a]);
    assert(s.take(2) =~= s);
    assert(seq![a].drop_last() =~= Seq::<Punct>::empty());
    assert(seq![a].last() == a);
    assert(s.drop_last() =~= seq![a]);
    assert(s.last() == b);
    assert(Punct::count_spec() == 3);
    assert(crate::syntax::token_seq::seq_encode(Seq::<Punct>::empty()) == 0);
    assert(crate::syntax::token_seq::seq_encode(seq![a]) == a.index_spec() + 1);
    assert(crate::syntax::token_seq::seq_encode(s) == (a.index_spec() + 1) * 3
        + b.index_spec() + 1);
    assert(crate::syntax::prefix::step_code::<Punct>(s, 0) == 0);
    assert(crate::syntax::prefix::step_code::<Punct>(s, 1) == a.index_spec() + 1);
}

/// The concrete shape of every spelling: two marks, prefix codes below 4,
/// and a full code that names the instruction uniquely.
proof fn lemma_spellings()
    ensures
        forall|j: u32|
            j < 9 ==> (#[trigger] Inst::variant_spec(j).tokens_spec()).len() == 2,
        forall|j: u32|
            j < 9 ==> crate::syntax::prefix::step_code::<Punct>(
                #[trigger] Inst::variant_spec(j).tokens_spec(),
                0,
            ) == 0,
        forall|j: u32|
            j < 9 ==> 1 <= crate::syntax::prefix::step_code::<Punct>(
                #[trigger] Inst::variant_spec(j).tokens_spec(),
                1,
            ) <= 3,
        forall|j: u32|
            j < 9 ==> crate::syntax::token_seq::seq_encode(
                #[trigger] Inst::variant_spec(j).tokens_spec(),
            ) == spelling_code(j),
{
    assert forall|j: u32| j < 9 implies {
        let s = #[trigger] Inst::variant_spec(j).tokens_spec();
        &&& s.len() == 2
        &&& crate::syntax::prefix::step_code::<Punct>(s, 0) == 0
        &&& 1 <= crate::syntax::prefix::step_code::<Punct>(s, 1) <= 3
        &&& crate::syntax::token_seq::seq_encode(s) == spelling_code(j)
    } by {
        if j == 0 {
            lemma_pair_codes(Punct::Period, Punct::Question);
        } else if j == 1 {
            lemma_pair_codes(Punct::Question, Punct::Period);
        } else if j == 2 {
            lemma_pair_codes(Punct::Period, Punct::Period);
        } else if j == 3 {
            lemma_pair_codes(Punct::Bang, Punct::Bang);
        } else if j == 4 {
            lemma_pair_codes(Punct::Bang, Punct::Period);
        } else if j == 5 {
            lemma_pair_codes(Punct::Period, Punct::Bang);
        } else if j == 6 {
            lemma_pair_codes(Punct::Bang, Punct::Question);
        } else if j == 7 {
            lemma_pair_codes(Punct::Question, Punct::Bang);
        } else {
            lemma_pair_codes(Punct::Question, Punct::Question);
        }
    }
}

/// Builds the dialect's prefix table: all nine instructions, each under its
/// two-mark spelling; the dense array covers every spelling. The spellings
/// are a fixed, conflict-free set, so construction always succeeds.
pub fn table() -> (r: Result<PrefixTable<Punct, Inst>, InsertError<Punct, Inst>>)
    ensures
        r matches Ok(t),
        r matches Ok(t) ==> {
            &&& t.wf()
            &&& t@ == crate::syntax::prefix::insert_all_fold::<Punct, Inst>(
                Map::empty(),
                9,
            )
            &&& forall|j: u32|
                j < 9 ==> crate::syntax::prefix::table_registers(
                    t@,
                    #[trigger] Inst::variant_spec(j),
                    Inst::variant_spec(j).tokens_spec(),
                )
        },
{
    proof {
        reveal_with_fuel(crate::syntax::token_seq::max_code, 4);
    }
    let mut t: PrefixTable<Punct, Inst> = PrefixTable::with_dense_width(2);
    proof {
        lemma_spellings();
        assert forall|j: u32| j < 9 implies crate::syntax::token_seq::seq_encode(
            #[trigger] Inst::variant_spec(j).tokens_spec(),
        ) <= u32::MAX by {
            assert(spelling_code(j) <= 12);
        }
        assert(t@ =~= Map::<int, crate::syntax::prefix::SpecEntry<Inst>>::empty());
    }
    match t.insert_all() {
        Ok(()) => Ok(t),
        Err(e) => {
            proof {
                lemma_no_spelling_conflicts();
            }
            Err(e)
        },
    }
}

/// No step of registering the nine spellings in order hits a conflict:
/// prefix positions stay below every terminal, and the full codes are
/// pairwise distinct.
proof fn lemma_no_spelling_conflicts()
    ensures
        forall|j: u32|
            j < 9 ==> !crate::syntax::prefix::insert_conflicts(
                crate::syntax::prefix::insert_all_fold::<Punct, Inst>(Map::empty(), j as int),
                #[trigger] Inst::variant_spec(j).tokens_spec(),
            ),
{
    lemma_spellings();
    let m0 = Map::<int, crate::syntax::prefix::SpecEntry<Inst>>::empty();
    assert forall|j: u32| j < 9 implies !crate::syntax::prefix::insert_conflicts(
        crate::syntax::prefix::insert_all_fold::<Punct, Inst>(m0, j as int),
        #[trigger] Inst::variant_spec(j).tokens_spec(),
    ) by {
        let s = Inst::variant_spec(j).tokens_spec();
        let fold = crate::syntax::prefix::insert_all_fold::<Punct, Inst>(m0, j as int);
        assert(s.len() == 2);
        // no prefix position of `s` ends an opcode: every terminal in the
        // fold sits at a full code, which is at least 4
        assert forall|c: int|
            c <= 3 implies !crate::syntax::prefix::is_terminal_at(fold, c) by {
            if crate::syntax::prefix::is_terminal_at(fold, c) {
                crate::syntax::prefix::lemma_fold_terminal_src::<Punct, Inst>(
                    m0,
                    j as int,
                    c,
                );
                let i = choose|i: int|
                    0 <= i < j && c == crate::syntax::token_seq::seq_encode(
                        #[trigger] Inst::variant_spec(i as u32).tokens_spec(),
                    );
                assert(spelling_code(i as u32) >= 4);
            }
        }
        // the full code is taken by no earlier opcode: prefix keys are at
        // most 3, and the full codes are pairwise distinct
        if fold.contains_key(crate::syntax::token_seq::seq_encode(s)) {
            crate::syntax::prefix::lemma_fold_key_src::<Punct, Inst>(
                m0,
                j as int,
                crate::syntax::token_seq::seq_encode(s),
            );
            let i = choose|i: int|
                0 <= i < j && (crate::syntax::token_seq::seq_encode(s)
                    == crate::syntax::token_seq::seq_encode(
                    #[trigger] Inst::variant_spec(i as u32).tokens_spec(),
                ) || exists|k: int|
                    0 <= k < Inst::variant_spec(i as u32).tokens_spec().len()
                        && crate::syntax::token_seq::seq_encode(s)
                        == #[trigger] crate::syntax::prefix::step_code(
                        Inst::variant_spec(i as u32).tokens_spec(),
                        k,
                    ));
            assert(spelling_code(i as u32) != spelling_code(j));
            assert(false);
        }
        assert(crate::syntax::prefix::first_conflict_from(fold, s, 2) == -1);
        assert(crate::syntax::prefix::first_conflict_from(fold, s, 1) == -1);
        assert(crate::syntax::prefix::first_conflict_from(fold, s, 0) == -1);
    }
}

} // verus!
