use crate::syntax::prefix::Tokens;
use crate::syntax::variant::VariantIndex;
use crate::ws::parse::ParseError;
use crate::ws::token::Token;
use vstd::prelude::*;

verus! {

/// Optional instruction-set extensions that gate some opcodes.
#[derive(Clone, Copy, Debug, PartialEq, Eq, Hash, Structural)]
pub enum Feature {
    Wspace0_3,
    Shuffle,
    DumpStackHeap,
    DumpTrace,
}

/// A set of enabled features, selected when a table is built.
#[derive(Clone, Copy, Debug, PartialEq, Eq, Hash, Structural)]
pub struct Features {
    wspace0_3: bool,
    shuffle: bool,
    dump_stack_heap: bool,
    dump_trace: bool,
}

impl Features {
    pub closed spec fn contains_spec(&self, f: Feature) -> bool {
        match f {
            Feature::Wspace0_3 => self.wspace0_3,
            Feature::Shuffle => self.shuffle,
            Feature::DumpStackHeap => self.dump_stack_heap,
            Feature::DumpTrace => self.dump_trace,
        }
    }

    /// No features enabled.
    pub fn empty() -> (r: Self)
        ensures
            forall|f: Feature| !r.contains_spec(f),
    {
        Features { wspace0_3: false, shuffle: false, dump_stack_heap: false, dump_trace: false }
    }

    /// All features enabled.
    pub fn all() -> (r: Self)
        ensures
            forall|f: Feature| r.contains_spec(f),
    {
        Features { wspace0_3: true, shuffle: true, dump_stack_heap: true, dump_trace: true }
    }

    pub fn contains(&self, f: Feature) -> (r: bool)
        ensures
            r == self.contains_spec(f),
    {
        match f {
            Feature::Wspace0_3 => self.wspace0_3,
            Feature::Shuffle => self.shuffle,
            Feature::DumpStackHeap => self.dump_stack_heap,
            Feature::DumpTrace => self.dump_trace,
        }
    }

    /// Enables `f`, leaving the other features as they were.
    pub fn insert(&mut self, f: Feature)
        ensures
            final(self).contains_spec(f),
            forall|g: Feature|
                g != f ==> final(self).contains_spec(g) == old(self).contains_spec(g),
    {
        match f {
            Feature::Wspace0_3 => {
                self.wspace0_3 = true;
            },
            Feature::Shuffle => {
                self.shuffle = true;
            },
            Feature::DumpStackHeap => {
                self.dump_stack_heap = true;
            },
            Feature::DumpTrace => {
                self.dump_trace = true;
            },
        }
    }
}

/// A complete command identifier.
#[derive(Clone, Copy, Debug, PartialEq, Eq, PartialOrd, Ord, Hash, Structural)]
pub enum Opcode {
    Push,
    Dup,
    Copy,
    Swap,
    Drop,
    Slide,
    Add,
    Sub,
    Mul,
    Div,
    Mod,
    Store,
    Retrieve,
    Label,
    Call,
    Jmp,
    Jz,
    Jn,
    Ret,
    End,
    Printc,
    Printi,
    Readc,
    Readi,
    Shuffle,
    DumpStack,
    DumpHeap,
    DumpTrace,
}

/// The kind of trailing argument an opcode takes.
#[derive(Clone, Copy, Debug, PartialEq, Eq, Hash, Structural)]
pub enum ArgKind {
    /// No argument.
    NoArg,
    /// A sign-magnitude integer, read as bits until the terminator.
    IntArg,
    /// A label bit pattern, kept raw as an identity key.
    LabelArg,
}

impl Opcode {
    /// The canonical spelling of each opcode.
    pub open spec fn tokens_of(self) -> Seq<Token> {
        match self {
            Opcode::Push => seq![Token::S, Token::S],
            Opcode::Dup => seq![Token::S, Token::L, Token::S],
            Opcode::Copy => seq![Token::S, Token::T, Token::S],
            Opcode::Swap => seq![Token::S, Token::L, Token::T],
            Opcode::Drop => seq![Token::S, Token::L, Token::L],
            Opcode::Slide => seq![Token::S, Token::T, Token::L],
            Opcode::Add => seq![Token::T, Token::S, Token::S, Token::S],
            Opcode::Sub => seq![Token::T, Token::S, Token::S, Token::T],
            Opcode::Mul => seq![Token::T, Token::S, Token::S, Token::L],
            Opcode::Div => seq![Token::T, Token::S, Token::T, Token::S],
            Opcode::Mod => seq![Token::T, Token::S, Token::T, Token::T],
            Opcode::Store => seq![Token::T, Token::T, Token::S],
            Opcode::Retrieve => seq![Token::T, Token::T, Token::T],
            Opcode::Label => seq![Token::L, Token::S, Token::S],
            Opcode::Call => seq![Token::L, Token::S, Token::T],
            Opcode::Jmp => seq![Token::L, Token::S, Token::L],
            Opcode::Jz => seq![Token::L, Token::T, Token::S],
            Opcode::Jn => seq![Token::L, Token::T, Token::T],
            Opcode::Ret => seq![Token::L, Token::T, Token::L],
            Opcode::End => seq![Token::L, Token::L, Token::L],
            Opcode::Printc => seq![Token::T, Token::L, Token::S, Token::S],
            Opcode::Printi => seq![Token::T, Token::L, Token::S, Token::T],
            Opcode::Readc => seq![Token::T, Token::L, Token::T, Token::S],
            Opcode::Readi => seq![Token::T, Token::L, Token::T, Token::T],
            Opcode::Shuffle => seq![Token::S, Token::T, Token::T, Token::S],
            Opcode::DumpStack => seq![Token::L, Token::L, Token::S, Token::S, Token::S],
            Opcode::DumpHeap => seq![Token::L, Token::L, Token::S, Token::S, Token::T],
            Opcode::DumpTrace => seq![Token::L, Token::L, Token::T],
        }
    }

    /// The feature an opcode is gated behind, if any.
    pub open spec fn feature_spec(self) -> Option<Feature> {
        match self {
            Opcode::Copy => Some(Feature::Wspace0_3),
            Opcode::Slide => Some(Feature::Wspace0_3),
            Opcode::Shuffle => Some(Feature::Shuffle),
            Opcode::DumpStack => Some(Feature::DumpStackHeap),
            Opcode::DumpHeap => Some(Feature::DumpStackHeap),
            Opcode::DumpTrace => Some(Feature::DumpTrace),
            _ => None,
        }
    }

    pub fn feature(&self) -> (r: Option<Feature>)
        ensures
            r == self.feature_spec(),
    {
        match *self {
            Opcode::Copy => Some(Feature::Wspace0_3),
            Opcode::Slide => Some(Feature::Wspace0_3),
            Opcode::Shuffle => Some(Feature::Shuffle),
            Opcode::DumpStack => Some(Feature::DumpStackHeap),
            Opcode::DumpHeap => Some(Feature::DumpStackHeap),
            Opcode::DumpTrace => Some(Feature::DumpTrace),
            _ => None,
        }
    }

    /// The kind of argument each opcode reads after its spelling.
    pub open spec fn arg_kind_spec(self) -> ArgKind {
        match self {
            Opcode::Push => ArgKind::IntArg,
            Opcode::Copy => ArgKind::IntArg,
            Opcode::Slide => ArgKind::IntArg,
            Opcode::Label => ArgKind::LabelArg,
            Opcode::Call => ArgKind::LabelArg,
            Opcode::Jmp => ArgKind::LabelArg,
            Opcode::Jz => ArgKind::LabelArg,
            Opcode::Jn => ArgKind::LabelArg,
            _ => ArgKind::NoArg,
        }
    }

    pub fn arg_kind(&self) -> (r: ArgKind)
        ensures
            r == self.arg_kind_spec(),
    {
        match *self {
            Opcode::Push => ArgKind::IntArg,
            Opcode::Copy => ArgKind::IntArg,
            Opcode::Slide => ArgKind::IntArg,
            Opcode::Label => ArgKind::LabelArg,
            Opcode::Call => ArgKind::LabelArg,
            Opcode::Jmp => ArgKind::LabelArg,
            Opcode::Jz => ArgKind::LabelArg,
            Opcode::Jn => ArgKind::LabelArg,
            _ => ArgKind::NoArg,
        }
    }
}

impl Tokens for Opcode {
    type Token = Token;

    open spec fn tokens_spec(&self) -> Seq<Token> {
        self.tokens_of()
    }

    /// The spelling, as a fresh token list.
    fn tokens(&self) -> (r: Vec<Token>)
        ensures
            r@ == self.tokens_spec(),
    {
        let r: Vec<Token> = match *self {
            Opcode::Push => vec![Token::S, Token::S],
            Opcode::Dup => vec![Token::S, Token::L, Token::S],
            Opcode::Copy => vec![Token::S, Token::T, Token::S],
            Opcode::Swap => vec![Token::S, Token::L, Token::T],
            Opcode::Drop => vec![Token::S, Token::L, Token::L],
            Opcode::Slide => vec![Token::S, Token::T, Token::L],
            Opcode::Add => vec![Token::T, Token::S, Token::S, Token::S],
            Opcode::Sub => vec![Token::T, Token::S, Token::S, Token::T],
            Opcode::Mul => vec![Token::T, Token::S, Token::S, Token::L],
            Opcode::Div => vec![Token::T, Token::S, Token::T, Token::S],
            Opcode::Mod => vec![Token::T, Token::S, Token::T, Token::T],
            Opcode::Store => vec![Token::T, Token::T, Token::S],
            Opcode::Retrieve => vec![Token::T, Token::T, Token::T],
            Opcode::Label => vec![Token::L, Token::S, Token::S],
            Opcode::Call => vec![Token::L, Token::S, Token::T],
            Opcode::Jmp => vec![Token::L, Token::S, Token::L],
            Opcode::Jz => vec![Token::L, Token::T, Token::S],
            Opcode::Jn => vec![Token::L, Token::T, Token::T],
            Opcode::Ret => vec![Token::L, Token::T, Token::L],
            Opcode::End => vec![Token::L, Token::L, Token::L],
            Opcode::Printc => vec![Token::T, Token::L, Token::S, Token::S],
            Opcode::Printi => vec![Token::T, Token::L, Token::S, Token::T],
            Opcode::Readc => vec![Token::T, Token::L, Token::T, Token::S],
            Opcode::Readi => vec![Token::T, Token::L, Token::T, Token::T],
            Opcode::Shuffle => vec![Token::S, Token::T, Token::T, Token::S],
            Opcode::DumpStack => vec![Token::L, Token::L, Token::S, Token::S, Token::S],
            Opcode::DumpHeap => vec![Token::L, Token::L, Token::S, Token::S, Token::T],
            Opcode::DumpTrace => vec![Token::L, Token::L, Token::T],
        };
        proof {
            assert(r@ =~= self.tokens_spec());
        }
        r
    }
}

impl VariantIndex for Opcode {
    open spec fn count_spec() -> u32 {
        28
    }

    open spec fn index_spec(&self) -> u32 {
        match *self {
            Opcode::Push => 0,
            Opcode::Dup => 1,
            Opcode::Copy => 2,
            Opcode::Swap => 3,
            Opcode::Drop => 4,
            Opcode::Slide => 5,
            Opcode::Add => 6,
            Opcode::Sub => 7,
            Opcode::Mul => 8,
            Opcode::Div => 9,
            Opcode::Mod => 10,
            Opcode::Store => 11,
            Opcode::Retrieve => 12,
            Opcode::Label => 13,
            Opcode::Call => 14,
            Opcode::Jmp => 15,
            Opcode::Jz => 16,
            Opcode::Jn => 17,
            Opcode::Ret => 18,
            Opcode::End => 19,
            Opcode::Printc => 20,
            Opcode::Printi => 21,
            Opcode::Readc => 22,
            Opcode::Readi => 23,
            Opcode::Shuffle => 24,
            Opcode::DumpStack => 25,
            Opcode::DumpHeap => 26,
            Opcode::DumpTrace => 27,
        }
    }

    open spec fn variant_spec(index: u32) -> Opcode {
        if index == 0 {
            Opcode::Push
        } else if index == 1 {
            Opcode::Dup
        } else if index == 2 {
            Opcode::Copy
        } else if index == 3 {
            Opcode::Swap
        } else if index == 4 {
            Opcode::Drop
        } else if index == 5 {
            Opcode::Slide
        } else if index == 6 {
            Opcode::Add
        } else if index == 7 {
            Opcode::Sub
        } else if index == 8 {
            Opcode::Mul
        } else if index == 9 {
            Opcode::Div
        } else if index == 10 {
            Opcode::Mod
        } else if index == 11 {
            Opcode::Store
        } else if index == 12 {
            Opcode::Retrieve
        } else if index == 13 {
            Opcode::Label
        } else if index == 14 {
            Opcode::Call
        } else if index == 15 {
            Opcode::Jmp
        } else if index == 16 {
            Opcode::Jz
        } else if index == 17 {
            Opcode::Jn
        } else if index == 18 {
            Opcode::Ret
        } else if index == 19 {
            Opcode::End
        } else if index == 20 {
            Opcode::Printc
        } else if index == 21 {
            Opcode::Printi
        } else if index == 22 {
            Opcode::Readc
        } else if index == 23 {
            Opcode::Readi
        } else if index == 24 {
            Opcode::Shuffle
        } else if index == 25 {
            Opcode::DumpStack
        } else if index == 26 {
            Opcode::DumpHeap
        } else {
            Opcode::DumpTrace
        }
    }

    fn count() -> (r: u32)
        ensures
            r == Self::count_spec(),
    {
        28
    }

    fn variant(index: u32) -> (r: Opcode)
        ensures
            r == Self::variant_spec(index),
    {
        if index == 0 {
            Opcode::Push
        } else if index == 1 {
            Opcode::Dup
        } else if index == 2 {
            Opcode::Copy
        } else if index == 3 {
            Opcode::Swap
        } else if index == 4 {
            Opcode::Drop
        } else if index == 5 {
            Opcode::Slide
        } else if index == 6 {
            Opcode::Add
        } else if index == 7 {
            Opcode::Sub
        } else if index == 8 {
            Opcode::Mul
        } else if index == 9 {
            Opcode::Div
        } else if index == 10 {
            Opcode::Mod
        } else if index == 11 {
            Opcode::Store
        } else if index == 12 {
            Opcode::Retrieve
        } else if index == 13 {
            Opcode::Label
        } else if index == 14 {
            Opcode::Call
        } else if index == 15 {
            Opcode::Jmp
        } else if index == 16 {
            Opcode::Jz
        } else if index == 17 {
            Opcode::Jn
        } else if index == 18 {
            Opcode::Ret
        } else if index == 19 {
            Opcode::End
        } else if index == 20 {
            Opcode::Printc
        } else if index == 21 {
            Opcode::Printi
        } else if index == 22 {
            Opcode::Readc
        } else if index == 23 {
            Opcode::Readi
        } else if index == 24 {
            Opcode::Shuffle
        } else if index == 25 {
            Opcode::DumpStack
        } else if index == 26 {
            Opcode::DumpHeap
        } else {
            Opcode::DumpTrace
        }
    }

    fn index(&self) -> (r: u32)
        ensures
            r == self.index_spec(),
            r < Self::count_spec(),
    {
        match *self {
            Opcode::Push => 0,
            Opcode::Dup => 1,
            Opcode::Copy => 2,
            Opcode::Swap => 3,
            Opcode::Drop => 4,
            Opcode::Slide => 5,
            Opcode::Add => 6,
            Opcode::Sub => 7,
            Opcode::Mul => 8,
            Opcode::Div => 9,
            Opcode::Mod => 10,
            Opcode::Store => 11,
            Opcode::Retrieve => 12,
            Opcode::Label => 13,
            Opcode::Call => 14,
            Opcode::Jmp => 15,
            Opcode::Jz => 16,
            Opcode::Jn => 17,
            Opcode::Ret => 18,
            Opcode::End => 19,
            Opcode::Printc => 20,
            Opcode::Printi => 21,
            Opcode::Readc => 22,
            Opcode::Readi => 23,
            Opcode::Shuffle => 24,
            Opcode::DumpStack => 25,
            Opcode::DumpHeap => 26,
            Opcode::DumpTrace => 27,
        }
    }

    proof fn lemma_index_valid(&self)
        ensures
            self.index_spec() < Self::count_spec(),
            Self::variant_spec(self.index_spec()) == *self,
    {
    }
}

/// The argument payload of one instruction.
#[derive(Clone, Debug, PartialEq, Eq, Hash)]
pub enum InstArg<I, L> {
    Int(I),
    Label(L),
}

/// An error carried as an instruction in the decoded stream.
#[derive(Clone, Debug, PartialEq, Eq, Hash)]
pub enum InstError {
    ParseError(ParseError),
}

/// One decoded instruction: an opcode with its argument payload, or an
/// error item.
#[derive(Clone, Debug, PartialEq, Eq, Hash)]
pub enum Inst<I, L> {
    Push(I),
    Dup,
    Copy(I),
    Swap,
    Drop,
    Slide(I),
    Add,
    Sub,
    Mul,
    Div,
    Mod,
    Store,
    Retrieve,
    Label(L),
    Call(L),
    Jmp(L),
    Jz(L),
    Jn(L),
    Ret,
    End,
    Printc,
    Printi,
    Readc,
    Readi,
    Shuffle,
    DumpStack,
    DumpHeap,
    DumpTrace,
    Error(InstError),
}

/// A decoded instruction whose arguments are still raw bit vectors.
pub type RawInst = Inst<Vec<bool>, Vec<bool>>;

/// The instruction built from an opcode whose argument bits are `arg` (for
/// an opcode that takes none, `arg` is ignored).
pub open spec fn inst_of<A>(op: Opcode, arg: A) -> Inst<A, A> {
    match op {
        Opcode::Push => Inst::Push(arg),
        Opcode::Dup => Inst::Dup,
        Opcode::Copy => Inst::Copy(arg),
        Opcode::Swap => Inst::Swap,
        Opcode::Drop => Inst::Drop,
        Opcode::Slide => Inst::Slide(arg),
        Opcode::Add => Inst::Add,
        Opcode::Sub => Inst::Sub,
        Opcode::Mul => Inst::Mul,
        Opcode::Div => Inst::Div,
        Opcode::Mod => Inst::Mod,
        Opcode::Store => Inst::Store,
        Opcode::Retrieve => Inst::Retrieve,
        Opcode::Label => Inst::Label(arg),
        Opcode::Call => Inst::Call(arg),
        Opcode::Jmp => Inst::Jmp(arg),
        Opcode::Jz => Inst::Jz(arg),
        Opcode::Jn => Inst::Jn(arg),
        Opcode::Ret => Inst::Ret,
        Opcode::End => Inst::End,
        Opcode::Printc => Inst::Printc,
        Opcode::Printi => Inst::Printi,
        Opcode::Readc => Inst::Readc,
        Opcode::Readi => Inst::Readi,
        Opcode::Shuffle => Inst::Shuffle,
        Opcode::DumpStack => Inst::DumpStack,
        Opcode::DumpHeap => Inst::DumpHeap,
        Opcode::DumpTrace => Inst::DumpTrace,
    }
}

impl<I, L> Inst<I, L> {
    /// The opcode of a non-error instruction.
    pub open spec fn opcode_spec(&self) -> Opcode {
        match *self {
            Inst::Push(_) => Opcode::Push,
            Inst::Dup => Opcode::Dup,
            Inst::Copy(_) => Opcode::Copy,
            Inst::Swap => Opcode::Swap,
            Inst::Drop => Opcode::Drop,
            Inst::Slide(_) => Opcode::Slide,
            Inst::Add => Opcode::Add,
            Inst::Sub => Opcode::Sub,
            Inst::Mul => Opcode::Mul,
            Inst::Div => Opcode::Div,
            Inst::Mod => Opcode::Mod,
            Inst::Store => Opcode::Store,
            Inst::Retrieve => Opcode::Retrieve,
            Inst::Label(_) => Opcode::Label,
            Inst::Call(_) => Opcode::Call,
            Inst::Jmp(_) => Opcode::Jmp,
            Inst::Jz(_) => Opcode::Jz,
            Inst::Jn(_) => Opcode::Jn,
            Inst::Ret => Opcode::Ret,
            Inst::End => Opcode::End,
            Inst::Printc => Opcode::Printc,
            Inst::Printi => Opcode::Printi,
            Inst::Readc => Opcode::Readc,
            Inst::Readi => Opcode::Readi,
            Inst::Shuffle => Opcode::Shuffle,
            Inst::DumpStack => Opcode::DumpStack,
            Inst::DumpHeap => Opcode::DumpHeap,
            Inst::DumpTrace => Opcode::DumpTrace,
            Inst::Error(_) => Opcode::Push,
        }
    }

    pub fn opcode(&self) -> (r: Opcode)
        requires
            !(self is Error),
        ensures
            r == self.opcode_spec(),
    {
        match *self {
            Inst::Push(_) => Opcode::Push,
            Inst::Dup => Opcode::Dup,
            Inst::Copy(_) => Opcode::Copy,
            Inst::Swap => Opcode::Swap,
            Inst::Drop => Opcode::Drop,
            Inst::Slide(_) => Opcode::Slide,
            Inst::Add => Opcode::Add,
            Inst::Sub => Opcode::Sub,
            Inst::Mul => Opcode::Mul,
            Inst::Div => Opcode::Div,
            Inst::Mod => Opcode::Mod,
            Inst::Store => Opcode::Store,
            Inst::Retrieve => Opcode::Retrieve,
            Inst::Label(_) => Opcode::Label,
            Inst::Call(_) => Opcode::Call,
            Inst::Jmp(_) => Opcode::Jmp,
            Inst::Jz(_) => Opcode::Jz,
            Inst::Jn(_) => Opcode::Jn,
            Inst::Ret => Opcode::Ret,
            Inst::End => Opcode::End,
            Inst::Printc => Opcode::Printc,
            Inst::Printi => Opcode::Printi,
            Inst::Readc => Opcode::Readc,
            Inst::Readi => Opcode::Readi,
            Inst::Shuffle => Opcode::Shuffle,
            Inst::DumpStack => Opcode::DumpStack,
            Inst::DumpHeap => Opcode::DumpHeap,
            Inst::DumpTrace => Opcode::DumpTrace,
            Inst::Error(_) => Opcode::Push,
        }
    }
}

/// The features that the instructions of a decoded program use.
pub fn detect_features(insts: &Vec<RawInst>) -> (r: Features)
    ensures
        forall|f: Feature|
            r.contains_spec(f) <==> exists|i: int|
                0 <= i < insts@.len() && !(#[trigger] insts@[i] is Error)
                    && insts@[i].opcode_spec().feature_spec() == Some(f),
{
    let mut r = Features::empty();
    let mut i: usize = 0;
    let n = insts.len();
    while i < n
        invariant
            n == insts@.len(),
            i <= n,
            forall|f: Feature|
                r.contains_spec(f) <==> exists|j: int|
                    0 <= j < i && !(#[trigger] insts@[j] is Error)
                        && insts@[j].opcode_spec().feature_spec() == Some(f),
        decreases n - i,
    {
        match &insts[i] {
            Inst::Error(_) => {
            },
            inst => {
                match inst.opcode().feature() {
                    Some(f) => {
                        r.insert(f);
                        proof {
                            assert(!(insts@[i as int] is Error)
                                && insts@[i as int].opcode_spec().feature_spec() == Some(f));
                        }
                    },
                    None => {
                    },
                }
            },
        }
        i = i + 1;
    }
    r
}

} // verus!
