use crate::syntax::prefix::{
    scan_add_used,
    prefix_list_at, scan_op, OpScan, PrefixEntry, PrefixError, PrefixTable, SpecEntry, Tokens,
};
use crate::syntax::token_seq::{seq_decode, TokenSeq};
use crate::syntax::variant::VariantIndex;
use crate::text::iter::{EncodingError, Lexer};
use crate::ws::inst::{ArgKind, Features, Inst, InstError, Opcode, RawInst};
use crate::ws::token::Token;
use vstd::prelude::*;

verus! {

/// Why decoding one instruction failed; carried as an item in the decoded
/// stream, never as an aborting failure.
#[derive(Clone, Debug, PartialEq, Eq, Hash)]
pub enum ParseError {
    /// The token source reported invalid encoding. The tokens consumed for
    /// the interrupted instruction are carried along; decoding resumes after
    /// them on the next pull.
    EncodingError(EncodingError, Vec<Token>),
    /// The scanned sequence is no prefix of any opcode.
    UnknownOpcode(TokenSeq<Token>),
    /// The source ended while the sequence could still become any of the
    /// listed opcodes.
    IncompleteInst(TokenSeq<Token>, Vec<Opcode>),
    /// The source ended inside an argument, before its terminator.
    UnterminatedArg(Opcode, Vec<bool>),
}

/// Saved progress of an interrupted instruction.
#[derive(Clone, Debug)]
enum PartialState {
    ParsingOpcode(TokenSeq<Token>),
    ParsingArg(Opcode, Vec<bool>),
}

/// The decoder's resumption point, as a mathematical value.
pub ghost enum DecodeState {
    /// Matching an opcode, `code` tokens worth consumed.
    Scan { code: int },
    /// Reading the argument of `op`, with `bits` already read.
    Arg { op: Opcode, bits: Seq<bool> },
}

/// The mathematical value of one decoded item.
pub ghost enum SpecInst {
    /// A complete instruction: an opcode and its argument bits, if it takes
    /// any.
    Op { op: Opcode, arg: Option<Seq<bool>> },
    /// An error item.
    Fail { e: SpecParseError },
}

/// The mathematical value of a decode error.
pub ghost enum SpecParseError {
    Enc { err: EncodingError, toks: Seq<Token> },
    Unknown { code: int },
    Incomplete { code: int, opts: Seq<Opcode> },
    Unterminated { op: Opcode, bits: Seq<bool> },
}

/// The mathematical value of an error item.
pub open spec fn parse_error_view(e: ParseError) -> SpecParseError {
    match e {
        ParseError::EncodingError(err, toks) => SpecParseError::Enc { err, toks: toks@ },
        ParseError::UnknownOpcode(ts) => SpecParseError::Unknown { code: ts.encoding() },
        ParseError::IncompleteInst(ts, ops) => SpecParseError::Incomplete {
            code: ts.encoding(),
            opts: ops@,
        },
        ParseError::UnterminatedArg(op, bits) => SpecParseError::Unterminated {
            op,
            bits: bits@,
        },
    }
}

/// The mathematical value of one raw instruction.
pub open spec fn raw_inst_view(i: RawInst) -> SpecInst {
    match i {
        Inst::Push(b) => SpecInst::Op { op: Opcode::Push, arg: Some(b@) },
        Inst::Dup => SpecInst::Op { op: Opcode::Dup, arg: None },
        Inst::Copy(b) => SpecInst::Op { op: Opcode::Copy, arg: Some(b@) },
        Inst::Swap => SpecInst::Op { op: Opcode::Swap, arg: None },
        Inst::Drop => SpecInst::Op { op: Opcode::Drop, arg: None },
        Inst::Slide(b) => SpecInst::Op { op: Opcode::Slide, arg: Some(b@) },
        Inst::Add => SpecInst::Op { op: Opcode::Add, arg: None },
        Inst::Sub => SpecInst::Op { op: Opcode::Sub, arg: None },
        Inst::Mul => SpecInst::Op { op: Opcode::Mul, arg: None },
        Inst::Div => SpecInst::Op { op: Opcode::Div, arg: None },
        Inst::Mod => SpecInst::Op { op: Opcode::Mod, arg: None },
        Inst::Store => SpecInst::Op { op: Opcode::Store, arg: None },
        Inst::Retrieve => SpecInst::Op { op: Opcode::Retrieve, arg: None },
        Inst::Label(b) => SpecInst::Op { op: Opcode::Label, arg: Some(b@) },
        Inst::Call(b) => SpecInst::Op { op: Opcode::Call, arg: Some(b@) },
        Inst::Jmp(b) => SpecInst::Op { op: Opcode::Jmp, arg: Some(b@) },
        Inst::Jz(b) => SpecInst::Op { op: Opcode::Jz, arg: Some(b@) },
        Inst::Jn(b) => SpecInst::Op { op: Opcode::Jn, arg: Some(b@) },
        Inst::Ret => SpecInst::Op { op: Opcode::Ret, arg: None },
        Inst::End => SpecInst::Op { op: Opcode::End, arg: None },
        Inst::Printc => SpecInst::Op { op: Opcode::Printc, arg: None },
        Inst::Printi => SpecInst::Op { op: Opcode::Printi, arg: None },
        Inst::Readc => SpecInst::Op { op: Opcode::Readc, arg: None },
        Inst::Readi => SpecInst::Op { op: Opcode::Readi, arg: None },
        Inst::Shuffle => SpecInst::Op { op: Opcode::Shuffle, arg: None },
        Inst::DumpStack => SpecInst::Op { op: Opcode::DumpStack, arg: None },
        Inst::DumpHeap => SpecInst::Op { op: Opcode::DumpHeap, arg: None },
        Inst::DumpTrace => SpecInst::Op { op: Opcode::DumpTrace, arg: None },
        Inst::Error(InstError::ParseError(e)) => SpecInst::Fail { e: parse_error_view(e) },
    }
}

/// The outcome of one bit-vector argument scan, with the bits read so far
/// and the items consumed.
pub ghost enum ArgScan {
    /// The terminator token arrived: the argument is complete.
    Done { bits: Seq<bool>, used: int },
    /// The source ended before the terminator.
    Ended { bits: Seq<bool>, used: int },
    /// The source reported an encoding error; the bits so far are kept for
    /// resumption.
    Enc { bits: Seq<bool>, used: int },
}

/// The same argument scan, with `n` more items counted as consumed.
pub open spec fn arg_add_used(a: ArgScan, n: int) -> ArgScan {
    match a {
        ArgScan::Done { bits, used } => ArgScan::Done { bits, used: used + n },
        ArgScan::Ended { bits, used } => ArgScan::Ended { bits, used: used + n },
        ArgScan::Enc { bits, used } => ArgScan::Enc { bits, used: used + n },
    }
}

/// Reads argument bits from the source until the terminator: a space is 0, a
/// tab is 1, a line feed ends the argument.
pub open spec fn scan_arg(bits: Seq<bool>, s: Seq<Result<Token, EncodingError>>) -> ArgScan
    decreases s.len(),
{
    if s.len() == 0 {
        ArgScan::Ended { bits, used: 0 }
    } else {
        match s[0] {
            Err(_) => ArgScan::Enc { bits, used: 1 },
            Ok(tok) => match tok {
                Token::S => arg_add_used(scan_arg(bits.push(false), s.drop_first()), 1),
                Token::T => arg_add_used(scan_arg(bits.push(true), s.drop_first()), 1),
                Token::L => ArgScan::Done { bits, used: 1 },
            },
        }
    }
}

/// The bits of an argument, written back as the tokens that spelled them.
pub open spec fn bits_tokens(bits: Seq<bool>) -> Seq<Token> {
    bits.map_values(|b: bool| if b { Token::T } else { Token::S })
}

/// The error payload at stream position `i`.
pub open spec fn err_at(s: Seq<Result<Token, EncodingError>>, i: int) -> EncodingError {
    s[i]->Err_0
}

/// How many source items an argument scan consumed.
pub open spec fn arg_scan_used(a: ArgScan) -> int {
    match a {
        ArgScan::Done { used, .. } => used,
        ArgScan::Ended { used, .. } => used,
        ArgScan::Enc { used, .. } => used,
    }
}

/// An argument scan never consumes more items than the source holds.
pub proof fn lemma_scan_arg_used(bits: Seq<bool>, s: Seq<Result<Token, EncodingError>>)
    ensures
        0 <= arg_scan_used(scan_arg(bits, s)) <= s.len(),
    decreases s.len(),
{
    if s.len() > 0 {
        match s[0] {
            Err(_) => {},
            Ok(tok) => match tok {
                Token::S => {
                    lemma_scan_arg_used(bits.push(false), s.drop_first());
                },
                Token::T => {
                    lemma_scan_arg_used(bits.push(true), s.drop_first());
                },
                Token::L => {},
            },
        }
    }
}

/// The decoded item matches what the step function expects. A scanned
/// sequence that outgrew the scalar width has no entry and is reported as an
/// unknown opcode whose carried sequence is clipped to the width; everything
/// else matches exactly.
pub open spec fn inst_view_matches(expect: Option<SpecInst>, got: SpecInst) -> bool {
    match expect {
        Some(SpecInst::Fail { e: SpecParseError::Unknown { code } }) => {
            if code > u32::MAX {
                got matches SpecInst::Fail { e: SpecParseError::Unknown { code: c } } && 0 <= c
                    <= u32::MAX
            } else {
                Some(got) == expect
            }
        },
        _ => Some(got) == expect,
    }
}

/// What one pull yields: the item, how many source items it consumed, and
/// the decoder's state afterwards.
pub ghost struct StepResult {
    pub item: Option<SpecInst>,
    pub used: int,
    pub st: DecodeState,
}

/// The decoder's step function: what `next` yields from a table, a
/// resumption state, and the items the source will produce.
pub open spec fn spec_next(
    m: Map<int, SpecEntry<Opcode>>,
    st: DecodeState,
    s: Seq<Result<Token, EncodingError>>,
) -> StepResult {
    match st {
        DecodeState::Arg { op, bits } => spec_next_arg(op, bits, s, 0),
        DecodeState::Scan { code } => match scan_op::<Token, Opcode>(m, code, s) {
            OpScan::End => StepResult { item: None, used: 0, st: DecodeState::Scan { code: 0 } },
            OpScan::Found { op, used } => {
                if op.arg_kind_spec() == ArgKind::NoArg {
                    StepResult {
                        item: Some(SpecInst::Op { op, arg: None }),
                        used,
                        st: DecodeState::Scan { code: 0 },
                    }
                } else {
                    spec_next_arg(op, Seq::empty(), s.skip(used), used)
                }
            },
            OpScan::Enc { code, used } => StepResult {
                item: Some(
                    SpecInst::Fail {
                        e: SpecParseError::Enc {
                            err: err_at(s, used - 1),
                            toks: seq_decode(code as nat),
                        },
                    },
                ),
                used,
                st: DecodeState::Scan { code },
            },
            OpScan::Unknown { code, used } => StepResult {
                item: Some(SpecInst::Fail { e: SpecParseError::Unknown { code } }),
                used,
                st: DecodeState::Scan { code: 0 },
            },
            OpScan::Incomplete { code, used } => StepResult {
                item: Some(
                    SpecInst::Fail {
                        e: SpecParseError::Incomplete { code, opts: prefix_list_at(m, code) },
                    },
                ),
                used,
                st: DecodeState::Scan { code: 0 },
            },
        },
    }
}

/// The argument phase of the step function: `shift` source items were
/// already consumed by the opcode phase.
pub open spec fn spec_next_arg(
    op: Opcode,
    bits0: Seq<bool>,
    s: Seq<Result<Token, EncodingError>>,
    shift: int,
) -> StepResult {
    match scan_arg(bits0, s) {
        ArgScan::Done { bits, used } => StepResult {
            item: Some(SpecInst::Op { op, arg: Some(bits) }),
            used: used + shift,
            st: DecodeState::Scan { code: 0 },
        },
        ArgScan::Ended { bits, used } => StepResult {
            item: Some(SpecInst::Fail { e: SpecParseError::Unterminated { op, bits } }),
            used: used + shift,
            st: DecodeState::Scan { code: 0 },
        },
        ArgScan::Enc { bits, used } => StepResult {
            item: Some(
                SpecInst::Fail {
                    e: SpecParseError::Enc {
                        err: err_at(s, used - 1),
                        toks: op.tokens_of() + bits_tokens(bits),
                    },
                },
            ),
            used: used + shift,
            st: DecodeState::Arg { op, bits },
        },
    }
}

/// The incremental decoder: pulls tokens from its source, resolves opcodes
/// through the prefix table, reads trailing bit-vector arguments, and
/// suspends and resumes across source errors without re-reading anything.
#[derive(Debug)]
pub struct Parser<L> {
    table: PrefixTable<Token, Opcode>,
    lex: L,
    partial: Option<PartialState>,
}

impl<L: Lexer<Tok = Token>> Parser<L> {
    /// The prefix table the decoder matches against.
    pub closed spec fn table_spec(&self) -> Map<int, SpecEntry<Opcode>> {
        self.table@
    }

    /// The resumption state.
    pub closed spec fn state(&self) -> DecodeState {
        match self.partial {
            None => DecodeState::Scan { code: 0 },
            Some(PartialState::ParsingOpcode(ts)) => DecodeState::Scan { code: ts.encoding() },
            Some(PartialState::ParsingArg(op, bits)) => DecodeState::Arg { op, bits: bits@ },
        }
    }

    /// The items the source will still yield.
    pub closed spec fn stream(&self) -> Seq<Result<Token, EncodingError>> {
        self.lex.remaining()
    }

    pub closed spec fn wf(&self) -> bool {
        &&& self.table.wf()
        &&& match self.partial {
            Some(PartialState::ParsingArg(op, _)) => op.arg_kind_spec() != ArgKind::NoArg,
            _ => true,
        }
    }

    /// A saved opcode-scan position is always a real sequence code: it fits
    /// the scalar width and is never negative, so the resumability law
    /// applies to every state this decoder can be in.
    pub proof fn lemma_state_code_bounds(&self)
        ensures
            self.state() matches DecodeState::Scan { code } ==> 0 <= code <= u32::MAX,
    {
        match self.partial {
            Some(PartialState::ParsingOpcode(ts)) => {
                ts.lemma_encoding_bounds();
            },
            _ => {},
        }
    }

    /// A decoder over `lex`, matching against `table`, with no partial
    /// state.
    pub fn with_table(table: PrefixTable<Token, Opcode>, lex: L) -> (r: Self)
        requires
            table.wf(),
        ensures
            r.wf(),
            r.table_spec() == table@,
            r.state() == (DecodeState::Scan { code: 0 }),
            r.stream() == lex.remaining(),
    {
        Parser { table, lex, partial: None }
    }

    /// Decodes the next instruction, or returns `None` at a clean end of
    /// input. Every error is yielded as a stream item; after an encoding
    /// error the decoder resumes exactly where matching left off.
    pub fn next(&mut self) -> (r: Option<RawInst>)
        requires
            old(self).wf(),
        ensures
            final(self).wf(),
            final(self).table_spec() == old(self).table_spec(),
            ({
                let res = spec_next(old(self).table_spec(), old(self).state(), old(self).stream());
                &&& final(self).state() == res.st
                &&& final(self).stream() == old(self).stream().skip(res.used)
                &&& match r {
                    None => res.item is None,
                    Some(inst) => inst_view_matches(res.item, raw_inst_view(inst)),
                }
            }),
    {
        let partial = self.partial.take();
        let partial_seq: TokenSeq<Token> = match partial {
            Some(PartialState::ParsingArg(opcode, bits)) => {
                let inst = self.parse_arg(opcode, &bits, Ghost(0));
                return Some(inst);
            },
            Some(PartialState::ParsingOpcode(ts)) => ts,
            None => TokenSeq::new(),
        };
        let scanned = self.table.parse_at(&mut self.lex, partial_seq);
        proof {
            crate::syntax::prefix::lemma_scan_op_used(
                old(self).table_spec(),
                partial_seq.encoding(),
                old(self).stream(),
            );
        }
        match scanned {
            None => {
                proof {
                    assert(old(self).stream().skip(0) =~= old(self).stream());
                }
                None
            },
            Some(Ok(opcode)) => {
                match opcode.arg_kind() {
                    ArgKind::NoArg => {
                        Some(inst_no_arg(opcode))
                    },
                    _ => {
                        let ghost shift = old(self).stream().len() - self.lex.remaining().len();
                        let empty_bits: Vec<bool> = Vec::new();
                        let inst = self.parse_arg(opcode, &empty_bits, Ghost(shift));
                        proof {
                            let s0 = old(self).stream();
                            let asc = scan_arg(Seq::empty(), s0.skip(shift));
                            lemma_scan_arg_used(Seq::empty(), s0.skip(shift));
                            let res = spec_next(
                                old(self).table_spec(),
                                old(self).state(),
                                s0,
                            );
                            assert(s0.skip(shift).skip(res.used - shift) =~= s0.skip(res.used));
                        }
                        Some(inst)
                    },
                }
            },
            Some(Err(PrefixError::EncodingError(e, ts))) => {
                self.partial = Some(PartialState::ParsingOpcode(ts));
                let toks = ts.to_tokens();
                Some(Inst::Error(InstError::ParseError(ParseError::EncodingError(e, toks))))
            },
            Some(Err(PrefixError::UnknownOpcode(ts))) => {
                proof {
                    ts.lemma_encoding_bounds();
                }
                Some(Inst::Error(InstError::ParseError(ParseError::UnknownOpcode(ts))))
            },
            Some(Err(PrefixError::IncompleteOpcode(ts, ops))) => {
                Some(Inst::Error(InstError::ParseError(ParseError::IncompleteInst(ts, ops))))
            },
        }
    }

    /// Reads the bit-vector argument of `opcode`, continuing from the bits
    /// already read; `shift` counts the source items the opcode phase of
    /// this same pull consumed.
    fn parse_arg(&mut self, opcode: Opcode, bits: &Vec<bool>, shift: Ghost<int>) -> (r: RawInst)
        requires
            old(self).wf(),
            old(self).partial is None,
            opcode.arg_kind_spec() != ArgKind::NoArg,
        ensures
            final(self).wf(),
            final(self).table_spec() == old(self).table_spec(),
            ({
                let res = spec_next_arg(opcode, bits@, old(self).stream(), shift@);
                &&& final(self).state() == res.st
                &&& final(self).stream() == old(self).stream().skip(res.used - shift@)
                &&& Some(raw_inst_view(r)) == res.item
            }),
    {
        let ghost s0 = old(self).stream();
        let mut acc = copy_bits(bits);
        loop
            invariant
                self.wf(),
                self.table@ == old(self).table_spec(),
                self.partial is None,
                opcode.arg_kind_spec() != ArgKind::NoArg,
                s0 == old(self).stream(),
                self.lex.remaining().len() <= s0.len(),
                self.lex.remaining() == s0.skip(s0.len() - self.lex.remaining().len()),
                scan_arg(bits@, s0) == arg_add_used(
                    scan_arg(acc@, self.lex.remaining()),
                    s0.len() - self.lex.remaining().len(),
                ),
            decreases self.lex.remaining().len(),
        {
            let ghost pre = self.lex.remaining();
            let ghost used: int = s0.len() - pre.len();
            match self.lex.next() {
                Some(Ok(Token::S)) => {
                    acc.push(false);
                    proof {
                        lemma_arg_add_used_compose(
                            scan_arg(acc@, pre.drop_first()),
                            1,
                            used,
                        );
                        assert(pre.drop_first() =~= self.lex.remaining());
                    }
                },
                Some(Ok(Token::T)) => {
                    acc.push(true);
                    proof {
                        lemma_arg_add_used_compose(
                            scan_arg(acc@, pre.drop_first()),
                            1,
                            used,
                        );
                        assert(pre.drop_first() =~= self.lex.remaining());
                    }
                },
                Some(Ok(Token::L)) => {
                    proof {
                        assert(self.lex.remaining() =~= s0.skip(used + 1));
                    }
                    return inst_with_arg(opcode, acc);
                },
                Some(Err(e)) => {
                    proof {
                        assert(self.lex.remaining() =~= s0.skip(used + 1));
                    }
                    let mut toks = opcode.tokens();
                    append_bit_tokens(&mut toks, &acc);
                    let ghost final_bits = acc@;
                    self.partial = Some(PartialState::ParsingArg(opcode, acc));
                    proof {
                        assert(self.state() == (DecodeState::Arg {
                            op: opcode,
                            bits: final_bits,
                        }));
                    }
                    return Inst::Error(
                        InstError::ParseError(ParseError::EncodingError(e, toks)),
                    );
                },
                None => {
                    return Inst::Error(
                        InstError::ParseError(ParseError::UnterminatedArg(opcode, acc)),
                    );
                },
            }
        }
    }
}

/// Whether a dialect built with `features` includes `op`.
pub open spec fn opcode_enabled(op: Opcode, features: Features) -> bool {
    match op.feature_spec() {
        None => true,
        Some(f) => features.contains_spec(f),
    }
}

/// A spelling's code fits the table's scalar width.
proof fn lemma_spelling_fits(op: Opcode)
    ensures
        crate::syntax::token_seq::seq_encode(op.tokens_spec()) <= u32::MAX,
{
    crate::syntax::prefix::seq_valid_from_exec::<Token>(op.tokens_spec());
    crate::syntax::token_seq::lemma_encode_exp_bound(op.tokens_spec());
    assert(op.tokens_spec().len() <= 5);
    crate::syntax::token_seq::lemma_p4_mono(op.tokens_spec().len() as int, 5);
    assert(crate::syntax::token_seq::p4(5) == 1024) by {
        reveal_with_fuel(crate::syntax::token_seq::p4, 6);
    }
}

/// The table after the first `j` opcodes of the dialect are registered:
/// each enabled one without conflict, each gated one skipped.
pub open spec fn build_fold(features: Features, j: int) -> Map<int, SpecEntry<Opcode>>
    decreases j,
{
    if j <= 0 {
        Map::empty()
    } else {
        let m = build_fold(features, j - 1);
        let op = Opcode::variant_spec((j - 1) as u32);
        if opcode_enabled(op, features) {
            crate::syntax::prefix::after_insert(m, op.tokens_spec(), op)
        } else {
            m
        }
    }
}

/// The scalar code of each opcode's full spelling.
pub open spec fn ws_spelling_code(j: u32) -> int {
    if j == 0 {
        4
    } else if j == 1 {
        19
    } else if j == 2 {
        16
    } else if j == 3 {
        20
    } else if j == 4 {
        21
    } else if j == 5 {
        18
    } else if j == 6 {
        67
    } else if j == 7 {
        68
    } else if j == 8 {
        69
    } else if j == 9 {
        70
    } else if j == 10 {
        71
    } else if j == 11 {
        25
    } else if j == 12 {
        26
    } else if j == 13 {
        31
    } else if j == 14 {
        32
    } else if j == 15 {
        33
    } else if j == 16 {
        34
    } else if j == 17 {
        35
    } else if j == 18 {
        36
    } else if j == 19 {
        39
    } else if j == 20 {
        85
    } else if j == 21 {
        86
    } else if j == 22 {
        88
    } else if j == 23 {
        89
    } else if j == 24 {
        52
    } else if j == 25 {
        337
    } else if j == 26 {
        338
    } else {
        38
    }
}

/// How many tokens each spelling holds.
pub open spec fn ws_spelling_len(j: u32) -> int {
    if j == 0 {
        2
    } else if j == 1 {
        3
    } else if j == 2 {
        3
    } else if j == 3 {
        3
    } else if j == 4 {
        3
    } else if j == 5 {
        3
    } else if j == 6 {
        4
    } else if j == 7 {
        4
    } else if j == 8 {
        4
    } else if j == 9 {
        4
    } else if j == 10 {
        4
    } else if j == 11 {
        3
    } else if j == 12 {
        3
    } else if j == 13 {
        3
    } else if j == 14 {
        3
    } else if j == 15 {
        3
    } else if j == 16 {
        3
    } else if j == 17 {
        3
    } else if j == 18 {
        3
    } else if j == 19 {
        3
    } else if j == 20 {
        4
    } else if j == 21 {
        4
    } else if j == 22 {
        4
    } else if j == 23 {
        4
    } else if j == 24 {
        4
    } else if j == 25 {
        5
    } else if j == 26 {
        5
    } else {
        3
    }
}

/// The codes of the strict prefixes the spellings walk; no full spelling's
/// code is among them.
pub open spec fn ws_prefix_code(c: int) -> bool {
    c == 0 || c == 1 || c == 2 || c == 3 || c == 5 || c == 6 || c == 7 || c == 8 || c == 9 || c == 10 || c == 11 || c == 12 || c == 17 || c == 22 || c == 23 || c == 28 || c == 29 || c == 37 || c == 112
}

/// Every terminal of a dialect fold marks the full spelling of one of the
/// opcodes already folded in.
proof fn lemma_build_terminal_src(features: Features, j: int, x: int)
    requires
        crate::syntax::prefix::is_terminal_at(build_fold(features, j), x),
    ensures
        exists|i: int|
            0 <= i < j && x == crate::syntax::token_seq::seq_encode(
                #[trigger] Opcode::variant_spec(i as u32).tokens_spec(),
            ),
    decreases j,
{
    if j > 0 {
        let m = build_fold(features, j - 1);
        let op = Opcode::variant_spec((j - 1) as u32);
        let s = op.tokens_spec();
        if opcode_enabled(op, features) && x == crate::syntax::token_seq::seq_encode(s) {
            assert(0 <= j - 1 < j && x == crate::syntax::token_seq::seq_encode(
                Opcode::variant_spec((j - 1) as u32).tokens_spec(),
            ));
        } else {
            if opcode_enabled(op, features) {
                crate::syntax::prefix::lemma_add_prefixes_terminal_src(
                    m,
                    s,
                    op,
                    s.len() as int,
                    x,
                );
            }
            lemma_build_terminal_src(features, j - 1, x);
        }
    }
}

/// Every key of a dialect fold is a prefix position or the full code of
/// one of the opcodes already folded in.
proof fn lemma_build_key_src(features: Features, j: int, x: int)
    requires
        build_fold(features, j).contains_key(x),
    ensures
        exists|i: int|
            0 <= i < j && (x == crate::syntax::token_seq::seq_encode(
                #[trigger] Opcode::variant_spec(i as u32).tokens_spec(),
            ) || exists|k: int|
                0 <= k < Opcode::variant_spec(i as u32).tokens_spec().len() && x
                    == #[trigger] crate::syntax::prefix::step_code(
                    Opcode::variant_spec(i as u32).tokens_spec(),
                    k,
                )),
    decreases j,
{
    if j > 0 {
        let m = build_fold(features, j - 1);
        let op = Opcode::variant_spec((j - 1) as u32);
        let s = op.tokens_spec();
        if opcode_enabled(op, features) && x == crate::syntax::token_seq::seq_encode(s) {
            assert(0 <= j - 1 < j && x == crate::syntax::token_seq::seq_encode(
                Opcode::variant_spec((j - 1) as u32).tokens_spec(),
            ));
        } else {
            if opcode_enabled(op, features) {
                crate::syntax::prefix::lemma_add_prefixes_key_src(m, s, op, s.len() as int, x);
                if !m.contains_key(x) {
                    let k = choose|k: int|
                        0 <= k < s.len() && x == crate::syntax::prefix::step_code(s, k);
                    assert(0 <= j - 1 < j && 0 <= k < Opcode::variant_spec(
                        (j - 1) as u32,
                    ).tokens_spec().len() && x == crate::syntax::prefix::step_code(
                        Opcode::variant_spec((j - 1) as u32).tokens_spec(),
                        k,
                    ));
                } else {
                    lemma_build_key_src(features, j - 1, x);
                }
            } else {
                lemma_build_key_src(features, j - 1, x);
            }
        }
    }
}

/// The concrete shape of every spelling: its length, its full code, and
/// that every strict-prefix position it walks is a prefix code.
proof fn lemma_ws_spellings()
    ensures
        forall|j: u32|
            j < 28 ==> (#[trigger] Opcode::variant_spec(j).tokens_spec()).len()
                == ws_spelling_len(j),
        forall|j: u32|
            j < 28 ==> crate::syntax::token_seq::seq_encode(
                #[trigger] Opcode::variant_spec(j).tokens_spec(),
            ) == ws_spelling_code(j),
        forall|j: u32, k: int|
            j < 28 && 0 <= k < ws_spelling_len(j) ==> ws_prefix_code(
                #[trigger] crate::syntax::prefix::step_code::<Token>(
                    Opcode::variant_spec(j).tokens_spec(),
                    k,
                ),
            ),
{
    assert forall|j: u32| j < 28 implies {
        let s = #[trigger] Opcode::variant_spec(j).tokens_spec();
        &&& s.len() == ws_spelling_len(j)
        &&& crate::syntax::token_seq::seq_encode(s) == ws_spelling_code(j)
        &&& forall|k: int|
            0 <= k < ws_spelling_len(j) ==> ws_prefix_code(
                #[trigger] crate::syntax::prefix::step_code::<Token>(s, k),
            )
    } by {
        if j == 0 {
            let s = seq![Token::S, Token::S];
            assert(Opcode::variant_spec(0).tokens_spec() =~= s);
            crate::syntax::prefix::lemma_step_code_zero::<Token>(s);
            crate::syntax::prefix::lemma_step_code_succ::<Token>(s, 0);
            assert(crate::syntax::prefix::step_code::<Token>(s, 1) == 1);
            crate::syntax::prefix::lemma_step_code_succ::<Token>(s, 1);
            assert(crate::syntax::prefix::step_code::<Token>(s, 2) == 4);
            crate::syntax::prefix::lemma_step_code_full::<Token>(s);
            assert(crate::syntax::token_seq::seq_encode(s) == 4);
            assert forall|k: int| 0 <= k < s.len() implies ws_prefix_code(
                crate::syntax::prefix::step_code::<Token>(s, k),
            ) by {
                if k == 0 {
                    assert(crate::syntax::prefix::step_code::<Token>(s, k) == 0);
                }
                else if k == 1 {
                    assert(crate::syntax::prefix::step_code::<Token>(s, k) == 1);
                }
            }
        }
        else if j == 1 {
            let s = seq![Token::S, Token::L, Token::S];
            assert(Opcode::variant_spec(1).tokens_spec() =~= s);
            crate::syntax::prefix::lemma_step_code_zero::<Token>(s);
            crate::syntax::prefix::lemma_step_code_succ::<Token>(s, 0);
            assert(crate::syntax::prefix::step_code::<Token>(s, 1) == 1);
            crate::syntax::prefix::lemma_step_code_succ::<Token>(s, 1);
            assert(crate::syntax::prefix::step_code::<Token>(s, 2) == 6);
            crate::syntax::prefix::lemma_step_code_succ::<Token>(s, 2);
            assert(crate::syntax::prefix::step_code::<Token>(s, 3) == 19);
            crate::syntax::prefix::lemma_step_code_full::<Token>(s);
            assert(crate::syntax::token_seq::seq_encode(s) == 19);
            assert forall|k: int| 0 <= k < s.len() implies ws_prefix_code(
                crate::syntax::prefix::step_code::<Token>(s, k),
            ) by {
                if k == 0 {
                    assert(crate::syntax::prefix::step_code::<Token>(s, k) == 0);
                }
                else if k == 1 {
                    assert(crate::syntax::prefix::step_code::<Token>(s, k) == 1);
                }
                else if k == 2 {
                    assert(crate::syntax::prefix::step_code::<Token>(s, k) == 6);
                }
            }
        }
        else if j == 2 {
            let s = seq![Token::S, Token::T, Token::S];
            assert(Opcode::variant_spec(2).tokens_spec() =~= s);
            crate::syntax::prefix::lemma_step_code_zero::<Token>(s);
            crate::syntax::prefix::lemma_step_code_succ::<Token>(s, 0);
            assert(crate::syntax::prefix::step_code::<Token>(s, 1) == 1);
            crate::syntax::prefix::lemma_step_code_succ::<Token>(s, 1);
            assert(crate::syntax::prefix::step_code::<Token>(s, 2) == 5);
            crate::syntax::prefix::lemma_step_code_succ::<Token>(s, 2);
            assert(crate::syntax::prefix::step_code::<Token>(s, 3) == 16);
            crate::syntax::prefix::lemma_step_code_full::<Token>(s);
            assert(crate::syntax::token_seq::seq_encode(s) == 16);
            assert forall|k: int| 0 <= k < s.len() implies ws_prefix_code(
                crate::syntax::prefix::step_code::<Token>(s, k),
            ) by {
                if k == 0 {
                    assert(crate::syntax::prefix::step_code::<Token>(s, k) == 0);
                }
                else if k == 1 {
                    assert(crate::syntax::prefix::step_code::<Token>(s, k) == 1);
                }
                else if k == 2 {
                    assert(crate::syntax::prefix::step_code::<Token>(s, k) == 5);
                }
            }
        }
        else if j == 3 {
            let s = seq![Token::S, Token::L, Token::T];
            assert(Opcode::variant_spec(3).tokens_spec() =~= s);
            crate::syntax::prefix::lemma_step_code_zero::<Token>(s);
            crate::syntax::prefix::lemma_step_code_succ::<Token>(s, 0);
            assert(crate::syntax::prefix::step_code::<Token>(s, 1) == 1);
            crate::syntax::prefix::lemma_step_code_succ::<Token>(s, 1);
            assert(crate::syntax::prefix::step_code::<Token>(s, 2) == 6);
            crate::syntax::prefix::lemma_step_code_succ::<Token>(s, 2);
            assert(crate::syntax::prefix::step_code::<Token>(s, 3) == 20);
            crate::syntax::prefix::lemma_step_code_full::<Token>(s);
            assert(crate::syntax::token_seq::seq_encode(s) == 20);
            assert forall|k: int| 0 <= k < s.len() implies ws_prefix_code(
                crate::syntax::prefix::step_code::<Token>(s, k),
            ) by {
                if k == 0 {
                    assert(crate::syntax::prefix::step_code::<Token>(s, k) == 0);
                }
                else if k == 1 {
                    assert(crate::syntax::prefix::step_code::<Token>(s, k) == 1);
                }
                else if k == 2 {
                    assert(crate::syntax::prefix::step_code::<Token>(s, k) == 6);
                }
            }
        }
        else if j == 4 {
            let s = seq![Token::S, Token::L, Token::L];
            assert(Opcode::variant_spec(4).tokens_spec() =~= s);
            crate::syntax::prefix::lemma_step_code_zero::<Token>(s);
            crate::syntax::prefix::lemma_step_code_succ::<Token>(s, 0);
            assert(crate::syntax::prefix::step_code::<Token>(s, 1) == 1);
            crate::syntax::prefix::lemma_step_code_succ::<Token>(s, 1);
            assert(crate::syntax::prefix::step_code::<Token>(s, 2) == 6);
            crate::syntax::prefix::lemma_step_code_succ::<Token>(s, 2);
            assert(crate::syntax::prefix::step_code::<Token>(s, 3) == 21);
            crate::syntax::prefix::lemma_step_code_full::<Token>(s);
            assert(crate::syntax::token_seq::seq_encode(s) == 21);
            assert forall|k: int| 0 <= k < s.len() implies ws_prefix_code(
                crate::syntax::prefix::step_code::<Token>(s, k),
            ) by {
                if k == 0 {
                    assert(crate::syntax::prefix::step_code::<Token>(s, k) == 0);
                }
                else if k == 1 {
                    assert(crate::syntax::prefix::step_code::<Token>(s, k) == 1);
                }
                else if k == 2 {
                    assert(crate::syntax::prefix::step_code::<Token>(s, k) == 6);
                }
            }
        }
        else if j == 5 {
            let s = seq![Token::S, Token::T, Token::L];
            assert(Opcode::variant_spec(5).tokens_spec() =~= s);
            crate::syntax::prefix::lemma_step_code_zero::<Token>(s);
            crate::syntax::prefix::lemma_step_code_succ::<Token>(s, 0);
            assert(crate::syntax::prefix::step_code::<Token>(s, 1) == 1);
            crate::syntax::prefix::lemma_step_code_succ::<Token>(s, 1);
            assert(crate::syntax::prefix::step_code::<Token>(s, 2) == 5);
            crate::syntax::prefix::lemma_step_code_succ::<Token>(s, 2);
            assert(crate::syntax::prefix::step_code::<Token>(s, 3) == 18);
            crate::syntax::prefix::lemma_step_code_full::<Token>(s);
            assert(crate::syntax::token_seq::seq_encode(s) == 18);
            assert forall|k: int| 0 <= k < s.len() implies ws_prefix_code(
                crate::syntax::prefix::step_code::<Token>(s, k),
            ) by {
                if k == 0 {
                    assert(crate::syntax::prefix::step_code::<Token>(s, k) == 0);
                }
                else if k == 1 {
                    assert(crate::syntax::prefix::step_code::<Token>(s, k) == 1);
                }
                else if k == 2 {
                    assert(crate::syntax::prefix::step_code::<Token>(s, k) == 5);
                }
            }
        }
        else if j == 6 {
            let s = seq![Token::T, Token::S, Token::S, Token::S];
            assert(Opcode::variant_spec(6).tokens_spec() =~= s);
            crate::syntax::prefix::lemma_step_code_zero::<Token>(s);
            crate::syntax::prefix::lemma_step_code_succ::<Token>(s, 0);
            assert(crate::syntax::prefix::step_code::<Token>(s, 1) == 2);
            crate::syntax::prefix::lemma_step_code_succ::<Token>(s, 1);
            assert(crate::syntax::prefix::step_code::<Token>(s, 2) == 7);
            crate::syntax::prefix::lemma_step_code_succ::<Token>(s, 2);
            assert(crate::syntax::prefix::step_code::<Token>(s, 3) == 22);
            crate::syntax::prefix::lemma_step_code_succ::<Token>(s, 3);
            assert(crate::syntax::prefix::step_code::<Token>(s, 4) == 67);
            crate::syntax::prefix::lemma_step_code_full::<Token>(s);
            assert(crate::syntax::token_seq::seq_encode(s) == 67);
            assert forall|k: int| 0 <= k < s.len() implies ws_prefix_code(
                crate::syntax::prefix::step_code::<Token>(s, k),
            ) by {
                if k == 0 {
                    assert(crate::syntax::prefix::step_code::<Token>(s, k) == 0);
                }
                else if k == 1 {
                    assert(crate::syntax::prefix::step_code::<Token>(s, k) == 2);
                }
                else if k == 2 {
                    assert(crate::syntax::prefix::step_code::<Token>(s, k) == 7);
                }
                else if k == 3 {
                    assert(crate::syntax::prefix::step_code::<Token>(s, k) == 22);
                }
            }
        }
        else if j == 7 {
            let s = seq![Token::T, Token::S, Token::S, Token::T];
            assert(Opcode::variant_spec(7).tokens_spec() =~= s);
            crate::syntax::prefix::lemma_step_code_zero::<Token>(s);
            crate::syntax::prefix::lemma_step_code_succ::<Token>(s, 0);
            assert(crate::syntax::prefix::step_code::<Token>(s, 1) == 2);
            crate::syntax::prefix::lemma_step_code_succ::<Token>(s, 1);
            assert(crate::syntax::prefix::step_code::<Token>(s, 2) == 7);
            crate::syntax::prefix::lemma_step_code_succ::<Token>(s, 2);
            assert(crate::syntax::prefix::step_code::<Token>(s, 3) == 22);
            crate::syntax::prefix::lemma_step_code_succ::<Token>(s, 3);
            assert(crate::syntax::prefix::step_code::<Token>(s, 4) == 68);
            crate::syntax::prefix::lemma_step_code_full::<Token>(s);
            assert(crate::syntax::token_seq::seq_encode(s) == 68);
            assert forall|k: int| 0 <= k < s.len() implies ws_prefix_code(
                crate::syntax::prefix::step_code::<Token>(s, k),
            ) by {
                if k == 0 {
                    assert(crate::syntax::prefix::step_code::<Token>(s, k) == 0);
                }
                else if k == 1 {
                    assert(crate::syntax::prefix::step_code::<Token>(s, k) == 2);
                }
                else if k == 2 {
                    assert(crate::syntax::prefix::step_code::<Token>(s, k) == 7);
                }
                else if k == 3 {
                    assert(crate::syntax::prefix::step_code::<Token>(s, k) == 22);
                }
            }
        }
        else if j == 8 {
            let s = seq![Token::T, Token::S, Token::S, Token::L];
            assert(Opcode::variant_spec(8).tokens_spec() =~= s);
            crate::syntax::prefix::lemma_step_code_zero::<Token>(s);
            crate::syntax::prefix::lemma_step_code_succ::<Token>(s, 0);
            assert(crate::syntax::prefix::step_code::<Token>(s, 1) == 2);
            crate::syntax::prefix::lemma_step_code_succ::<Token>(s, 1);
            assert(crate::syntax::prefix::step_code::<Token>(s, 2) == 7);
            crate::syntax::prefix::lemma_step_code_succ::<Token>(s, 2);
            assert(crate::syntax::prefix::step_code::<Token>(s, 3) == 22);
            crate::syntax::prefix::lemma_step_code_succ::<Token>(s, 3);
            assert(crate::syntax::prefix::step_code::<Token>(s, 4) == 69);
            crate::syntax::prefix::lemma_step_code_full::<Token>(s);
            assert(crate::syntax::token_seq::seq_encode(s) == 69);
            assert forall|k: int| 0 <= k < s.len() implies ws_prefix_code(
                crate::syntax::prefix::step_code::<Token>(s, k),
            ) by {
                if k == 0 {
                    assert(crate::syntax::prefix::step_code::<Token>(s, k) == 0);
                }
                else if k == 1 {
                    assert(crate::syntax::prefix::step_code::<Token>(s, k) == 2);
                }
                else if k == 2 {
                    assert(crate::syntax::prefix::step_code::<Token>(s, k) == 7);
                }
                else if k == 3 {
                    assert(crate::syntax::prefix::step_code::<Token>(s, k) == 22);
                }
            }
        }
        else if j == 9 {
            let s = seq![Token::T, Token::S, Token::T, Token::S];
            assert(Opcode::variant_spec(9).tokens_spec() =~= s);
            crate::syntax::prefix::lemma_step_code_zero::<Token>(s);
            crate::syntax::prefix::lemma_step_code_succ::<Token>(s, 0);
            assert(crate::syntax::prefix::step_code::<Token>(s, 1) == 2);
            crate::syntax::prefix::lemma_step_code_succ::<Token>(s, 1);
            assert(crate::syntax::prefix::step_code::<Token>(s, 2) == 7);
            crate::syntax::prefix::lemma_step_code_succ::<Token>(s, 2);
            assert(crate::syntax::prefix::step_code::<Token>(s, 3) == 23);
            crate::syntax::prefix::lemma_step_code_succ::<Token>(s, 3);
            assert(crate::syntax::prefix::step_code::<Token>(s, 4) == 70);
            crate::syntax::prefix::lemma_step_code_full::<Token>(s);
            assert(crate::syntax::token_seq::seq_encode(s) == 70);
            assert forall|k: int| 0 <= k < s.len() implies ws_prefix_code(
                crate::syntax::prefix::step_code::<Token>(s, k),
            ) by {
                if k == 0 {
                    assert(crate::syntax::prefix::step_code::<Token>(s, k) == 0);
                }
                else if k == 1 {
                    assert(crate::syntax::prefix::step_code::<Token>(s, k) == 2);
                }
                else if k == 2 {
                    assert(crate::syntax::prefix::step_code::<Token>(s, k) == 7);
                }
                else if k == 3 {
                    assert(crate::syntax::prefix::step_code::<Token>(s, k) == 23);
                }
            }
        }
        else if j == 10 {
            let s = seq![Token::T, Token::S, Token::T, Token::T];
            assert(Opcode::variant_spec(10).tokens_spec() =~= s);
            crate::syntax::prefix::lemma_step_code_zero::<Token>(s);
            crate::syntax::prefix::lemma_step_code_succ::<Token>(s, 0);
            assert(crate::syntax::prefix::step_code::<Token>(s, 1) == 2);
            crate::syntax::prefix::lemma_step_code_succ::<Token>(s, 1);
            assert(crate::syntax::prefix::step_code::<Token>(s, 2) == 7);
            crate::syntax::prefix::lemma_step_code_succ::<Token>(s, 2);
            assert(crate::syntax::prefix::step_code::<Token>(s, 3) == 23);
            crate::syntax::prefix::lemma_step_code_succ::<Token>(s, 3);
            assert(crate::syntax::prefix::step_code::<Token>(s, 4) == 71);
            crate::syntax::prefix::lemma_step_code_full::<Token>(s);
            assert(crate::syntax::token_seq::seq_encode(s) == 71);
            assert forall|k: int| 0 <= k < s.len() implies ws_prefix_code(
                crate::syntax::prefix::step_code::<Token>(s, k),
            ) by {
                if k == 0 {
                    assert(crate::syntax::prefix::step_code::<Token>(s, k) == 0);
                }
                else if k == 1 {
                    assert(crate::syntax::prefix::step_code::<Token>(s, k) == 2);
                }
                else if k == 2 {
                    assert(crate::syntax::prefix::step_code::<Token>(s, k) == 7);
                }
                else if k == 3 {
                    assert(crate::syntax::prefix::step_code::<Token>(s, k) == 23);
                }
            }
        }
        else if j == 11 {
            let s = seq![Token::T, Token::T, Token::S];
            assert(Opcode::variant_spec(11).tokens_spec() =~= s);
            crate::syntax::prefix::lemma_step_code_zero::<Token>(s);
            crate::syntax::prefix::lemma_step_code_succ::<Token>(s, 0);
            assert(crate::syntax::prefix::step_code::<Token>(s, 1) == 2);
            crate::syntax::prefix::lemma_step_code_succ::<Token>(s, 1);
            assert(crate::syntax::prefix::step_code::<Token>(s, 2) == 8);
            crate::syntax::prefix::lemma_step_code_succ::<Token>(s, 2);
            assert(crate::syntax::prefix::step_code::<Token>(s, 3) == 25);
            crate::syntax::prefix::lemma_step_code_full::<Token>(s);
            assert(crate::syntax::token_seq::seq_encode(s) == 25);
            assert forall|k: int| 0 <= k < s.len() implies ws_prefix_code(
                crate::syntax::prefix::step_code::<Token>(s, k),
            ) by {
                if k == 0 {
                    assert(crate::syntax::prefix::step_code::<Token>(s, k) == 0);
                }
                else if k == 1 {
                    assert(crate::syntax::prefix::step_code::<Token>(s, k) == 2);
                }
                else if k == 2 {
                    assert(crate::syntax::prefix::step_code::<Token>(s, k) == 8);
                }
            }
        }
        else if j == 12 {
            let s = seq![Token::T, Token::T, Token::T];
            assert(Opcode::variant_spec(12).tokens_spec() =~= s);
            crate::syntax::prefix::lemma_step_code_zero::<Token>(s);
            crate::syntax::prefix::lemma_step_code_succ::<Token>(s, 0);
            assert(crate::syntax::prefix::step_code::<Token>(s, 1) == 2);
            crate::syntax::prefix::lemma_step_code_succ::<Token>(s, 1);
            assert(crate::syntax::prefix::step_code::<Token>(s, 2) == 8);
            crate::syntax::prefix::lemma_step_code_succ::<Token>(s, 2);
            assert(crate::syntax::prefix::step_code::<Token>(s, 3) == 26);
            crate::syntax::prefix::lemma_step_code_full::<Token>(s);
            assert(crate::syntax::token_seq::seq_encode(s) == 26);
            assert forall|k: int| 0 <= k < s.len() implies ws_prefix_code(
                crate::syntax::prefix::step_code::<Token>(s, k),
            ) by {
                if k == 0 {
                    assert(crate::syntax::prefix::step_code::<Token>(s, k) == 0);
                }
                else if k == 1 {
                    assert(crate::syntax::prefix::step_code::<Token>(s, k) == 2);
                }
                else if k == 2 {
                    assert(crate::syntax::prefix::step_code::<Token>(s, k) == 8);
                }
            }
        }
        else if j == 13 {
            let s = seq![Token::L, Token::S, Token::S];
            assert(Opcode::variant_spec(13).tokens_spec() =~= s);
            crate::syntax::prefix::lemma_step_code_zero::<Token>(s);
            crate::syntax::prefix::lemma_step_code_succ::<Token>(s, 0);
            assert(crate::syntax::prefix::step_code::<Token>(s, 1) == 3);
            crate::syntax::prefix::lemma_step_code_succ::<Token>(s, 1);
            assert(crate::syntax::prefix::step_code::<Token>(s, 2) == 10);
            crate::syntax::prefix::lemma_step_code_succ::<Token>(s, 2);
            assert(crate::syntax::prefix::step_code::<Token>(s, 3) == 31);
            crate::syntax::prefix::lemma_step_code_full::<Token>(s);
            assert(crate::syntax::token_seq::seq_encode(s) == 31);
            assert forall|k: int| 0 <= k < s.len() implies ws_prefix_code(
                crate::syntax::prefix::step_code::<Token>(s, k),
            ) by {
                if k == 0 {
                    assert(crate::syntax::prefix::step_code::<Token>(s, k) == 0);
                }
                else if k == 1 {
                    assert(crate::syntax::prefix::step_code::<Token>(s, k) == 3);
                }
                else if k == 2 {
                    assert(crate::syntax::prefix::step_code::<Token>(s, k) == 10);
                }
            }
        }
        else if j == 14 {
            let s = seq![Token::L, Token::S, Token::T];
            assert(Opcode::variant_spec(14).tokens_spec() =~= s);
            crate::syntax::prefix::lemma_step_code_zero::<Token>(s);
            crate::syntax::prefix::lemma_step_code_succ::<Token>(s, 0);
            assert(crate::syntax::prefix::step_code::<Token>(s, 1) == 3);
            crate::syntax::prefix::lemma_step_code_succ::<Token>(s, 1);
            assert(crate::syntax::prefix::step_code::<Token>(s, 2) == 10);
            crate::syntax::prefix::lemma_step_code_succ::<Token>(s, 2);
            assert(crate::syntax::prefix::step_code::<Token>(s, 3) == 32);
            crate::syntax::prefix::lemma_step_code_full::<Token>(s);
            assert(crate::syntax::token_seq::seq_encode(s) == 32);
            assert forall|k: int| 0 <= k < s.len() implies ws_prefix_code(
                crate::syntax::prefix::step_code::<Token>(s, k),
            ) by {
                if k == 0 {
                    assert(crate::syntax::prefix::step_code::<Token>(s, k) == 0);
                }
                else if k == 1 {
                    assert(crate::syntax::prefix::step_code::<Token>(s, k) == 3);
                }
                else if k == 2 {
                    assert(crate::syntax::prefix::step_code::<Token>(s, k) == 10);
                }
            }
        }
        else if j == 15 {
            let s = seq![Token::L, Token::S, Token::L];
            assert(Opcode::variant_spec(15).tokens_spec() =~= s);
            crate::syntax::prefix::lemma_step_code_zero::<Token>(s);
            crate::syntax::prefix::lemma_step_code_succ::<Token>(s, 0);
            assert(crate::syntax::prefix::step_code::<Token>(s, 1) == 3);
            crate::syntax::prefix::lemma_step_code_succ::<Token>(s, 1);
            assert(crate::syntax::prefix::step_code::<Token>(s, 2) == 10);
            crate::syntax::prefix::lemma_step_code_succ::<Token>(s, 2);
            assert(crate::syntax::prefix::step_code::<Token>(s, 3) == 33);
            crate::syntax::prefix::lemma_step_code_full::<Token>(s);
            assert(crate::syntax::token_seq::seq_encode(s) == 33);
            assert forall|k: int| 0 <= k < s.len() implies ws_prefix_code(
                crate::syntax::prefix::step_code::<Token>(s, k),
            ) by {
                if k == 0 {
                    assert(crate::syntax::prefix::step_code::<Token>(s, k) == 0);
                }
                else if k == 1 {
                    assert(crate::syntax::prefix::step_code::<Token>(s, k) == 3);
                }
                else if k == 2 {
                    assert(crate::syntax::prefix::step_code::<Token>(s, k) == 10);
                }
            }
        }
        else if j == 16 {
            let s = seq![Token::L, Token::T, Token::S];
            assert(Opcode::variant_spec(16).tokens_spec() =~= s);
            crate::syntax::prefix::lemma_step_code_zero::<Token>(s);
            crate::syntax::prefix::lemma_step_code_succ::<Token>(s, 0);
            assert(crate::syntax::prefix::step_code::<Token>(s, 1) == 3);
            crate::syntax::prefix::lemma_step_code_succ::<Token>(s, 1);
            assert(crate::syntax::prefix::step_code::<Token>(s, 2) == 11);
            crate::syntax::prefix::lemma_step_code_succ::<Token>(s, 2);
            assert(crate::syntax::prefix::step_code::<Token>(s, 3) == 34);
            crate::syntax::prefix::lemma_step_code_full::<Token>(s);
            assert(crate::syntax::token_seq::seq_encode(s) == 34);
            assert forall|k: int| 0 <= k < s.len() implies ws_prefix_code(
                crate::syntax::prefix::step_code::<Token>(s, k),
            ) by {
                if k == 0 {
                    assert(crate::syntax::prefix::step_code::<Token>(s, k) == 0);
                }
                else if k == 1 {
                    assert(crate::syntax::prefix::step_code::<Token>(s, k) == 3);
                }
                else if k == 2 {
                    assert(crate::syntax::prefix::step_code::<Token>(s, k) == 11);
                }
            }
        }
        else if j == 17 {
            let s = seq![Token::L, Token::T, Token::T];
            assert(Opcode::variant_spec(17).tokens_spec() =~= s);
            crate::syntax::prefix::lemma_step_code_zero::<Token>(s);
            crate::syntax::prefix::lemma_step_code_succ::<Token>(s, 0);
            assert(crate::syntax::prefix::step_code::<Token>(s, 1) == 3);
            crate::syntax::prefix::lemma_step_code_succ::<Token>(s, 1);
            assert(crate::syntax::prefix::step_code::<Token>(s, 2) == 11);
            crate::syntax::prefix::lemma_step_code_succ::<Token>(s, 2);
            assert(crate::syntax::prefix::step_code::<Token>(s, 3) == 35);
            crate::syntax::prefix::lemma_step_code_full::<Token>(s);
            assert(crate::syntax::token_seq::seq_encode(s) == 35);
            assert forall|k: int| 0 <= k < s.len() implies ws_prefix_code(
                crate::syntax::prefix::step_code::<Token>(s, k),
            ) by {
                if k == 0 {
                    assert(crate::syntax::prefix::step_code::<Token>(s, k) == 0);
                }
                else if k == 1 {
                    assert(crate::syntax::prefix::step_code::<Token>(s, k) == 3);
                }
                else if k == 2 {
                    assert(crate::syntax::prefix::step_code::<Token>(s, k) == 11);
                }
            }
        }
        else if j == 18 {
            let s = seq![Token::L, Token::T, Token::L];
            assert(Opcode::variant_spec(18).tokens_spec() =~= s);
            crate::syntax::prefix::lemma_step_code_zero::<Token>(s);
            crate::syntax::prefix::lemma_step_code_succ::<Token>(s, 0);
            assert(crate::syntax::prefix::step_code::<Token>(s, 1) == 3);
            crate::syntax::prefix::lemma_step_code_succ::<Token>(s, 1);
            assert(crate::syntax::prefix::step_code::<Token>(s, 2) == 11);
            crate::syntax::prefix::lemma_step_code_succ::<Token>(s, 2);
            assert(crate::syntax::prefix::step_code::<Token>(s, 3) == 36);
            crate::syntax::prefix::lemma_step_code_full::<Token>(s);
            assert(crate::syntax::token_seq::seq_encode(s) == 36);
            assert forall|k: int| 0 <= k < s.len() implies ws_prefix_code(
                crate::syntax::prefix::step_code::<Token>(s, k),
            ) by {
                if k == 0 {
                    assert(crate::syntax::prefix::step_code::<Token>(s, k) == 0);
                }
                else if k == 1 {
                    assert(crate::syntax::prefix::step_code::<Token>(s, k) == 3);
                }
                else if k == 2 {
                    assert(crate::syntax::prefix::step_code::<Token>(s, k) == 11);
                }
            }
        }
        else if j == 19 {
            let s = seq![Token::L, Token::L, Token::L];
            assert(Opcode::variant_spec(19).tokens_spec() =~= s);
            crate::syntax::prefix::lemma_step_code_zero::<Token>(s);
            crate::syntax::prefix::lemma_step_code_succ::<Token>(s, 0);
            assert(crate::syntax::prefix::step_code::<Token>(s, 1) == 3);
            crate::syntax::prefix::lemma_step_code_succ::<Token>(s, 1);
            assert(crate::syntax::prefix::step_code::<Token>(s, 2) == 12);
            crate::syntax::prefix::lemma_step_code_succ::<Token>(s, 2);
            assert(crate::syntax::prefix::step_code::<Token>(s, 3) == 39);
            crate::syntax::prefix::lemma_step_code_full::<Token>(s);
            assert(crate::syntax::token_seq::seq_encode(s) == 39);
            assert forall|k: int| 0 <= k < s.len() implies ws_prefix_code(
                crate::syntax::prefix::step_code::<Token>(s, k),
            ) by {
                if k == 0 {
                    assert(crate::syntax::prefix::step_code::<Token>(s, k) == 0);
                }
                else if k == 1 {
                    assert(crate::syntax::prefix::step_code::<Token>(s, k) == 3);
                }
                else if k == 2 {
                    assert(crate::syntax::prefix::step_code::<Token>(s, k) == 12);
                }
            }
        }
        else if j == 20 {
            let s = seq![Token::T, Token::L, Token::S, Token::S];
            assert(Opcode::variant_spec(20).tokens_spec() =~= s);
            crate::syntax::prefix::lemma_step_code_zero::<Token>(s);
            crate::syntax::prefix::lemma_step_code_succ::<Token>(s, 0);
            assert(crate::syntax::prefix::step_code::<Token>(s, 1) == 2);
            crate::syntax::prefix::lemma_step_code_succ::<Token>(s, 1);
            assert(crate::syntax::prefix::step_code::<Token>(s, 2) == 9);
            crate::syntax::prefix::lemma_step_code_succ::<Token>(s, 2);
            assert(crate::syntax::prefix::step_code::<Token>(s, 3) == 28);
            crate::syntax::prefix::lemma_step_code_succ::<Token>(s, 3);
            assert(crate::syntax::prefix::step_code::<Token>(s, 4) == 85);
            crate::syntax::prefix::lemma_step_code_full::<Token>(s);
            assert(crate::syntax::token_seq::seq_encode(s) == 85);
            assert forall|k: int| 0 <= k < s.len() implies ws_prefix_code(
                crate::syntax::prefix::step_code::<Token>(s, k),
            ) by {
                if k == 0 {
                    assert(crate::syntax::prefix::step_code::<Token>(s, k) == 0);
                }
                else if k == 1 {
                    assert(crate::syntax::prefix::step_code::<Token>(s, k) == 2);
                }
                else if k == 2 {
                    assert(crate::syntax::prefix::step_code::<Token>(s, k) == 9);
                }
                else if k == 3 {
                    assert(crate::syntax::prefix::step_code::<Token>(s, k) == 28);
                }
            }
        }
        else if j == 21 {
            let s = seq![Token::T, Token::L, Token::S, Token::T];
            assert(Opcode::variant_spec(21).tokens_spec() =~= s);
            crate::syntax::prefix::lemma_step_code_zero::<Token>(s);
            crate::syntax::prefix::lemma_step_code_succ::<Token>(s, 0);
            assert(crate::syntax::prefix::step_code::<Token>(s, 1) == 2);
            crate::syntax::prefix::lemma_step_code_succ::<Token>(s, 1);
            assert(crate::syntax::prefix::step_code::<Token>(s, 2) == 9);
            crate::syntax::prefix::lemma_step_code_succ::<Token>(s, 2);
            assert(crate::syntax::prefix::step_code::<Token>(s, 3) == 28);
            crate::syntax::prefix::lemma_step_code_succ::<Token>(s, 3);
            assert(crate::syntax::prefix::step_code::<Token>(s, 4) == 86);
            crate::syntax::prefix::lemma_step_code_full::<Token>(s);
            assert(crate::syntax::token_seq::seq_encode(s) == 86);
            assert forall|k: int| 0 <= k < s.len() implies ws_prefix_code(
                crate::syntax::prefix::step_code::<Token>(s, k),
            ) by {
                if k == 0 {
                    assert(crate::syntax::prefix::step_code::<Token>(s, k) == 0);
                }
                else if k == 1 {
                    assert(crate::syntax::prefix::step_code::<Token>(s, k) == 2);
                }
                else if k == 2 {
                    assert(crate::syntax::prefix::step_code::<Token>(s, k) == 9);
                }
                else if k == 3 {
                    assert(crate::syntax::prefix::step_code::<Token>(s, k) == 28);
                }
            }
        }
        else if j == 22 {
            let s = seq![Token::T, Token::L, Token::T, Token::S];
            assert(Opcode::variant_spec(22).tokens_spec() =~= s);
            crate::syntax::prefix::lemma_step_code_zero::<Token>(s);
            crate::syntax::prefix::lemma_step_code_succ::<Token>(s, 0);
            assert(crate::syntax::prefix::step_code::<Token>(s, 1) == 2);
            crate::syntax::prefix::lemma_step_code_succ::<Token>(s, 1);
            assert(crate::syntax::prefix::step_code::<Token>(s, 2) == 9);
            crate::syntax::prefix::lemma_step_code_succ::<Token>(s, 2);
            assert(crate::syntax::prefix::step_code::<Token>(s, 3) == 29);
            crate::syntax::prefix::lemma_step_code_succ::<Token>(s, 3);
            assert(crate::syntax::prefix::step_code::<Token>(s, 4) == 88);
            crate::syntax::prefix::lemma_step_code_full::<Token>(s);
            assert(crate::syntax::token_seq::seq_encode(s) == 88);
            assert forall|k: int| 0 <= k < s.len() implies ws_prefix_code(
                crate::syntax::prefix::step_code::<Token>(s, k),
            ) by {
                if k == 0 {
                    assert(crate::syntax::prefix::step_code::<Token>(s, k) == 0);
                }
                else if k == 1 {
                    assert(crate::syntax::prefix::step_code::<Token>(s, k) == 2);
                }
                else if k == 2 {
                    assert(crate::syntax::prefix::step_code::<Token>(s, k) == 9);
                }
                else if k == 3 {
                    assert(crate::syntax::prefix::step_code::<Token>(s, k) == 29);
                }
            }
        }
        else if j == 23 {
            let s = seq![Token::T, Token::L, Token::T, Token::T];
            assert(Opcode::variant_spec(23).tokens_spec() =~= s);
            crate::syntax::prefix::lemma_step_code_zero::<Token>(s);
            crate::syntax::prefix::lemma_step_code_succ::<Token>(s, 0);
            assert(crate::syntax::prefix::step_code::<Token>(s, 1) == 2);
            crate::syntax::prefix::lemma_step_code_succ::<Token>(s, 1);
            assert(crate::syntax::prefix::step_code::<Token>(s, 2) == 9);
            crate::syntax::prefix::lemma_step_code_succ::<Token>(s, 2);
            assert(crate::syntax::prefix::step_code::<Token>(s, 3) == 29);
            crate::syntax::prefix::lemma_step_code_succ::<Token>(s, 3);
            assert(crate::syntax::prefix::step_code::<Token>(s, 4) == 89);
            crate::syntax::prefix::lemma_step_code_full::<Token>(s);
            assert(crate::syntax::token_seq::seq_encode(s) == 89);
            assert forall|k: int| 0 <= k < s.len() implies ws_prefix_code(
                crate::syntax::prefix::step_code::<Token>(s, k),
            ) by {
                if k == 0 {
                    assert(crate::syntax::prefix::step_code::<Token>(s, k) == 0);
                }
                else if k == 1 {
                    assert(crate::syntax::prefix::step_code::<Token>(s, k) == 2);
                }
                else if k == 2 {
                    assert(crate::syntax::prefix::step_code::<Token>(s, k) == 9);
                }
                else if k == 3 {
                    assert(crate::syntax::prefix::step_code::<Token>(s, k) == 29);
                }
            }
        }
        else if j == 24 {
            let s = seq![Token::S, Token::T, Token::T, Token::S];
            assert(Opcode::variant_spec(24).tokens_spec() =~= s);
            crate::syntax::prefix::lemma_step_code_zero::<Token>(s);
            crate::syntax::prefix::lemma_step_code_succ::<Token>(s, 0);
            assert(crate::syntax::prefix::step_code::<Token>(s, 1) == 1);
            crate::syntax::prefix::lemma_step_code_succ::<Token>(s, 1);
            assert(crate::syntax::prefix::step_code::<Token>(s, 2) == 5);
            crate::syntax::prefix::lemma_step_code_succ::<Token>(s, 2);
            assert(crate::syntax::prefix::step_code::<Token>(s, 3) == 17);
            crate::syntax::prefix::lemma_step_code_succ::<Token>(s, 3);
            assert(crate::syntax::prefix::step_code::<Token>(s, 4) == 52);
            crate::syntax::prefix::lemma_step_code_full::<Token>(s);
            assert(crate::syntax::token_seq::seq_encode(s) == 52);
            assert forall|k: int| 0 <= k < s.len() implies ws_prefix_code(
                crate::syntax::prefix::step_code::<Token>(s, k),
            ) by {
                if k == 0 {
                    assert(crate::syntax::prefix::step_code::<Token>(s, k) == 0);
                }
                else if k == 1 {
                    assert(crate::syntax::prefix::step_code::<Token>(s, k) == 1);
                }
                else if k == 2 {
                    assert(crate::syntax::prefix::step_code::<Token>(s, k) == 5);
                }
                else if k == 3 {
                    assert(crate::syntax::prefix::step_code::<Token>(s, k) == 17);
                }
            }
        }
        else if j == 25 {
            let s = seq![Token::L, Token::L, Token::S, Token::S, Token::S];
            assert(Opcode::variant_spec(25).tokens_spec() =~= s);
            crate::syntax::prefix::lemma_step_code_zero::<Token>(s);
            crate::syntax::prefix::lemma_step_code_succ::<Token>(s, 0);
            assert(crate::syntax::prefix::step_code::<Token>(s, 1) == 3);
            crate::syntax::prefix::lemma_step_code_succ::<Token>(s, 1);
            assert(crate::syntax::prefix::step_code::<Token>(s, 2) == 12);
            crate::syntax::prefix::lemma_step_code_succ::<Token>(s, 2);
            assert(crate::syntax::prefix::step_code::<Token>(s, 3) == 37);
            crate::syntax::prefix::lemma_step_code_succ::<Token>(s, 3);
            assert(crate::syntax::prefix::step_code::<Token>(s, 4) == 112);
            crate::syntax::prefix::lemma_step_code_succ::<Token>(s, 4);
            assert(crate::syntax::prefix::step_code::<Token>(s, 5) == 337);
            crate::syntax::prefix::lemma_step_code_full::<Token>(s);
            assert(crate::syntax::token_seq::seq_encode(s) == 337);
            assert forall|k: int| 0 <= k < s.len() implies ws_prefix_code(
                crate::syntax::prefix::step_code::<Token>(s, k),
            ) by {
                if k == 0 {
                    assert(crate::syntax::prefix::step_code::<Token>(s, k) == 0);
                }
                else if k == 1 {
                    assert(crate::syntax::prefix::step_code::<Token>(s, k) == 3);
                }
                else if k == 2 {
                    assert(crate::syntax::prefix::step_code::<Token>(s, k) == 12);
                }
                else if k == 3 {
                    assert(crate::syntax::prefix::step_code::<Token>(s, k) == 37);
                }
                else if k == 4 {
                    assert(crate::syntax::prefix::step_code::<Token>(s, k) == 112);
                }
            }
        }
        else if j == 26 {
            let s = seq![Token::L, Token::L, Token::S, Token::S, Token::T];
            assert(Opcode::variant_spec(26).tokens_spec() =~= s);
            crate::syntax::prefix::lemma_step_code_zero::<Token>(s);
            crate::syntax::prefix::lemma_step_code_succ::<Token>(s, 0);
            assert(crate::syntax::prefix::step_code::<Token>(s, 1) == 3);
            crate::syntax::prefix::lemma_step_code_succ::<Token>(s, 1);
            assert(crate::syntax::prefix::step_code::<Token>(s, 2) == 12);
            crate::syntax::prefix::lemma_step_code_succ::<Token>(s, 2);
            assert(crate::syntax::prefix::step_code::<Token>(s, 3) == 37);
            crate::syntax::prefix::lemma_step_code_succ::<Token>(s, 3);
            assert(crate::syntax::prefix::step_code::<Token>(s, 4) == 112);
            crate::syntax::prefix::lemma_step_code_succ::<Token>(s, 4);
            assert(crate::syntax::prefix::step_code::<Token>(s, 5) == 338);
            crate::syntax::prefix::lemma_step_code_full::<Token>(s);
            assert(crate::syntax::token_seq::seq_encode(s) == 338);
            assert forall|k: int| 0 <= k < s.len() implies ws_prefix_code(
                crate::syntax::prefix::step_code::<Token>(s, k),
            ) by {
                if k == 0 {
                    assert(crate::syntax::prefix::step_code::<Token>(s, k) == 0);
                }
                else if k == 1 {
                    assert(crate::syntax::prefix::step_code::<Token>(s, k) == 3);
                }
                else if k == 2 {
                    assert(crate::syntax::prefix::step_code::<Token>(s, k) == 12);
                }
                else if k == 3 {
                    assert(crate::syntax::prefix::step_code::<Token>(s, k) == 37);
                }
                else if k == 4 {
                    assert(crate::syntax::prefix::step_code::<Token>(s, k) == 112);
                }
            }
        }
        else {
            let s = seq![Token::L, Token::L, Token::T];
            assert(Opcode::variant_spec(27).tokens_spec() =~= s);
            crate::syntax::prefix::lemma_step_code_zero::<Token>(s);
            crate::syntax::prefix::lemma_step_code_succ::<Token>(s, 0);
            assert(crate::syntax::prefix::step_code::<Token>(s, 1) == 3);
            crate::syntax::prefix::lemma_step_code_succ::<Token>(s, 1);
            assert(crate::syntax::prefix::step_code::<Token>(s, 2) == 12);
            crate::syntax::prefix::lemma_step_code_succ::<Token>(s, 2);
            assert(crate::syntax::prefix::step_code::<Token>(s, 3) == 38);
            crate::syntax::prefix::lemma_step_code_full::<Token>(s);
            assert(crate::syntax::token_seq::seq_encode(s) == 38);
            assert forall|k: int| 0 <= k < s.len() implies ws_prefix_code(
                crate::syntax::prefix::step_code::<Token>(s, k),
            ) by {
                if k == 0 {
                    assert(crate::syntax::prefix::step_code::<Token>(s, k) == 0);
                }
                else if k == 1 {
                    assert(crate::syntax::prefix::step_code::<Token>(s, k) == 3);
                }
                else if k == 2 {
                    assert(crate::syntax::prefix::step_code::<Token>(s, k) == 12);
                }
            }
        }
    }
}

/// No step of building any dialect hits a conflict: no prefix position is
/// any full code, and the full codes are pairwise distinct, whichever
/// opcodes the features select.
proof fn lemma_ws_no_conflict(features: Features)
    ensures
        forall|j: u32|
            j < 28 ==> !crate::syntax::prefix::insert_conflicts(
                build_fold(features, j as int),
                #[trigger] Opcode::variant_spec(j).tokens_spec(),
            ),
{
    lemma_ws_spellings();
    assert forall|j: u32| j < 28 implies !crate::syntax::prefix::insert_conflicts(
        build_fold(features, j as int),
        #[trigger] Opcode::variant_spec(j).tokens_spec(),
    ) by {
        let s = Opcode::variant_spec(j).tokens_spec();
        let fold = build_fold(features, j as int);
        assert(s.len() == ws_spelling_len(j));
        assert(ws_spelling_len(j) >= 1);
        assert forall|k2: int|
            0 <= k2 < s.len() implies !crate::syntax::prefix::is_terminal_at(
            fold,
            crate::syntax::prefix::step_code::<Token>(s, k2),
        ) by {
            assert(ws_prefix_code(crate::syntax::prefix::step_code::<Token>(s, k2)));
            if crate::syntax::prefix::is_terminal_at(
                fold,
                crate::syntax::prefix::step_code::<Token>(s, k2),
            ) {
                lemma_build_terminal_src(
                    features,
                    j as int,
                    crate::syntax::prefix::step_code::<Token>(s, k2),
                );
                let i = choose|i: int|
                    0 <= i < j && crate::syntax::prefix::step_code::<Token>(s, k2)
                        == crate::syntax::token_seq::seq_encode(
                        #[trigger] Opcode::variant_spec(i as u32).tokens_spec(),
                    );
                assert(!ws_prefix_code(ws_spelling_code(i as u32)));
                assert(false);
            }
        }
        if fold.contains_key(crate::syntax::token_seq::seq_encode(s)) {
            lemma_build_key_src(features, j as int, crate::syntax::token_seq::seq_encode(s));
            let x = crate::syntax::token_seq::seq_encode(s);
            let i = choose|i: int|
                0 <= i < j && (x == crate::syntax::token_seq::seq_encode(
                    #[trigger] Opcode::variant_spec(i as u32).tokens_spec(),
                ) || exists|k: int|
                    0 <= k < Opcode::variant_spec(i as u32).tokens_spec().len() && x
                        == #[trigger] crate::syntax::prefix::step_code(
                        Opcode::variant_spec(i as u32).tokens_spec(),
                        k,
                    ));
            if x == crate::syntax::token_seq::seq_encode(
                Opcode::variant_spec(i as u32).tokens_spec(),
            ) {
                assert(ws_spelling_code(j) == ws_spelling_code(i as u32));
                assert(false);
            } else {
                assert(ws_prefix_code(x));
                assert(!ws_prefix_code(ws_spelling_code(j)));
                assert(false);
            }
        }
        crate::syntax::prefix::lemma_conflict_free(fold, s, 0);
    }
}

/// Builds the prefix table of the dialect `features` selects: every defined
/// opcode whose feature is enabled is registered under its spelling; the
/// gated ones are left out. The spellings form a prefix code, so whichever
/// opcodes the features choose, construction succeeds, and the result is
/// exactly the registration fold over the dialect.
pub fn build_table(features: Features) -> (r: Result<
    PrefixTable<Token, Opcode>,
    crate::syntax::prefix::InsertError<Token, Opcode>,
>)
    ensures
        r matches Ok(t),
        r matches Ok(t) ==> {
            &&& t.wf()
            &&& t@ == build_fold(features, 28)
            &&& forall|j: u32|
                j < 28 && opcode_enabled(#[trigger] Opcode::variant_spec(j), features)
                    ==> crate::syntax::prefix::table_registers(
                    t@,
                    Opcode::variant_spec(j),
                    Opcode::variant_spec(j).tokens_spec(),
                )
        },
{
    let mut table: PrefixTable<Token, Opcode> = PrefixTable::with_dense_width(3);
    proof {
        reveal_with_fuel(crate::syntax::token_seq::max_code, 5);
        assert(table@ =~= build_fold(features, 0));
    }
    let mut j: u32 = 0;
    while j < 28
        invariant
            table.wf(),
            j <= 28,
            table@ == build_fold(features, j as int),
            forall|j2: u32|
                j2 < j && opcode_enabled(#[trigger] Opcode::variant_spec(j2), features)
                    ==> crate::syntax::prefix::table_registers(
                    table@,
                    Opcode::variant_spec(j2),
                    Opcode::variant_spec(j2).tokens_spec(),
                ),
        decreases 28 - j,
    {
        let op = Opcode::variant(j);
        let enabled = match op.feature() {
            None => true,
            Some(f) => features.contains(f),
        };
        if enabled {
            let toks = crate::syntax::prefix::Tokens::tokens(&op);
            let ghost m_before = table@;
            let ghost s = op.tokens_spec();
            proof {
                lemma_spelling_fits(op);
            }
            match table.insert(toks.as_slice(), op) {
                Ok(()) => {
                    proof {
                        crate::syntax::prefix::seq_valid_from_exec::<Token>(s);
                        crate::syntax::prefix::lemma_no_conflict(m_before, s, 0);
                        assert forall|j2: u32|
                            j2 < j + 1 && opcode_enabled(
                                #[trigger] Opcode::variant_spec(j2),
                                features,
                            ) implies crate::syntax::prefix::table_registers(
                            table@,
                            Opcode::variant_spec(j2),
                            Opcode::variant_spec(j2).tokens_spec(),
                        ) by {
                            if j2 < j {
                                crate::syntax::prefix::lemma_registration_preserved(
                                    m_before,
                                    s,
                                    op,
                                    Opcode::variant_spec(j2),
                                    Opcode::variant_spec(j2).tokens_spec(),
                                );
                            } else {
                                crate::syntax::prefix::lemma_insert_registers(
                                    m_before,
                                    s,
                                    op,
                                );
                            }
                        }
                    }
                },
                Err(e) => {
                    proof {
                        // the dialect's spellings never conflict, so this
                        // arm is unreachable
                        lemma_ws_no_conflict(features);
                        assert(false);
                    }
                    return Err(e);
                },
            }
        }
        j = j + 1;
    }
    Ok(table)
}

/// What a scan over a stream prefix says about the whole stream: outcomes
/// that return before the prefix ends carry over unchanged, and a scan that
/// exhausts the prefix on a strict prefix of some opcode continues from its
/// sequence.
pub proof fn lemma_scan_op_append(
    m: Map<int, SpecEntry<Opcode>>,
    code: int,
    sa: Seq<Result<Token, EncodingError>>,
    sb: Seq<Result<Token, EncodingError>>,
)
    requires
        sa.len() > 0,
        code >= 0,
    ensures
        !(scan_op::<Token, Opcode>(m, code, sa) is End),
        match scan_op::<Token, Opcode>(m, code, sa) {
            OpScan::End => false,
            OpScan::Found { op, used } => scan_op::<Token, Opcode>(m, code, sa + sb)
                == OpScan::<Opcode>::Found { op, used },
            OpScan::Enc { code: c2, used } => scan_op::<Token, Opcode>(m, code, sa + sb)
                == OpScan::<Opcode>::Enc { code: c2, used },
            OpScan::Unknown { code: c2, used } => scan_op::<Token, Opcode>(m, code, sa + sb)
                == OpScan::<Opcode>::Unknown { code: c2, used },
            OpScan::Incomplete { code: c2, used } => used == sa.len() && scan_op::<
                Token,
                Opcode,
            >(m, code, sa + sb) == scan_add_used(
                scan_op::<Token, Opcode>(m, c2, sb),
                sa.len() as int,
            ),
        },
    decreases sa.len(),
{
    let s = sa + sb;
    assert(s[0] == sa[0]);
    assert(s.len() == sa.len() + sb.len());
    match sa[0] {
        Err(_) => {},
        Ok(tok) => {
            let code2 = code * Token::count_spec() + tok.index_spec() + 1;
            assert(code * Token::count_spec() >= 0) by (nonlinear_arith)
                requires
                    code >= 0,
            ;
            assert(code2 >= 1);
            if crate::syntax::prefix::is_terminal_at(m, code2) {
                assert(s.drop_first() =~= sa.drop_first() + sb);
            } else if m.contains_key(code2) {
                assert(s.drop_first() =~= sa.drop_first() + sb);
                if sa.drop_first().len() > 0 {
                    lemma_scan_op_append(m, code2, sa.drop_first(), sb);
                    match scan_op::<Token, Opcode>(m, code2, sa.drop_first()) {
                        OpScan::Incomplete { code: c2, used } => {
                            lemma_scan_add_compose(
                                scan_op::<Token, Opcode>(m, c2, sb),
                                sa.len() - 1,
                                1,
                            );
                        },
                        _ => {},
                    }
                } else {
                    assert(sa.drop_first() + sb =~= sb);
                    assert(scan_op::<Token, Opcode>(m, code2, sa.drop_first())
                        == (OpScan::<Opcode>::Incomplete { code: code2, used: 0int }));
                }
            } else {
            }
        },
    }
}

/// Composing consumed counts for opcode scans.
proof fn lemma_scan_add_compose(sc: OpScan<Opcode>, a: int, b: int)
    ensures
        scan_add_used(scan_add_used(sc, a), b) == scan_add_used(sc, a + b),
{
}

/// What an argument scan over a stream prefix says about the whole stream.
pub proof fn lemma_scan_arg_append(
    bits: Seq<bool>,
    sa: Seq<Result<Token, EncodingError>>,
    sb: Seq<Result<Token, EncodingError>>,
)
    ensures
        match scan_arg(bits, sa) {
            ArgScan::Done { bits: b, used } => scan_arg(bits, sa + sb) == ArgScan::Done {
                bits: b,
                used,
            },
            ArgScan::Enc { bits: b, used } => scan_arg(bits, sa + sb) == ArgScan::Enc {
                bits: b,
                used,
            },
            ArgScan::Ended { bits: b, used } => used == sa.len() && scan_arg(bits, sa + sb)
                == arg_add_used(scan_arg(b, sb), sa.len() as int),
        },
    decreases sa.len(),
{
    let s = sa + sb;
    if sa.len() == 0 {
        assert(s =~= sb);
    } else {
        assert(s[0] == sa[0]);
        match sa[0] {
            Err(_) => {},
            Ok(tok) => match tok {
                Token::S => {
                    assert(s.drop_first() =~= sa.drop_first() + sb);
                    lemma_scan_arg_append(bits.push(false), sa.drop_first(), sb);
                    match scan_arg(bits.push(false), sa.drop_first()) {
                        ArgScan::Ended { bits: b, used } => {
                            lemma_arg_add_used_compose(scan_arg(b, sb), sa.len() - 1, 1);
                        },
                        _ => {},
                    }
                },
                Token::T => {
                    assert(s.drop_first() =~= sa.drop_first() + sb);
                    lemma_scan_arg_append(bits.push(true), sa.drop_first(), sb);
                    match scan_arg(bits.push(true), sa.drop_first()) {
                        ArgScan::Ended { bits: b, used } => {
                            lemma_arg_add_used_compose(scan_arg(b, sb), sa.len() - 1, 1);
                        },
                        _ => {},
                    }
                },
                Token::L => {},
            },
        }
    }
}

/// Resumability: when the source errs in the middle of an instruction —
/// at any point of its opcode or its argument — the decoder yields the
/// error item, suspends, and the next pull decodes exactly the instruction
/// the unsplit stream would have given.
pub proof fn lemma_decode_resumes(
    m: Map<int, SpecEntry<Opcode>>,
    st: DecodeState,
    s1: Seq<Result<Token, EncodingError>>,
    e: EncodingError,
    s2: Seq<Result<Token, EncodingError>>,
)
    requires
        spec_next(m, st, s1 + s2).item matches Some(SpecInst::Op { .. }),
        spec_next(m, st, s1 + s2).used > s1.len(),
        st matches DecodeState::Scan { code } ==> code >= 0,
    ensures
        ({
            let res = spec_next(m, st, s1 + s2);
            let r1 = spec_next(m, st, s1.push(Err(e)));
            &&& r1.used == s1.len() + 1
            &&& r1.item matches Some(SpecInst::Fail { e: fe })
            &&& (match r1.item {
                Some(SpecInst::Fail { e: SpecParseError::Enc { err, .. } }) => err == e,
                _ => false,
            })
            &&& spec_next(m, r1.st, s2) == (StepResult {
                item: res.item,
                used: res.used - s1.len(),
                st: res.st,
            })
        }),
{
    let s = s1 + s2;
    let serr = s1.push(Err(e));
    assert(serr =~= s1 + seq![Err::<Token, EncodingError>(e)]);
    assert(serr[s1.len() as int] == Err::<Token, EncodingError>(e));
    let res = spec_next(m, st, s);
    match st {
        DecodeState::Arg { op, bits } => {
            lemma_resume_arg(m, op, bits, s1, e, s2, 0);
        },
        DecodeState::Scan { code } => {
            let sc = scan_op::<Token, Opcode>(m, code, s);
            if s1.len() == 0 {
                assert(s =~= s2);
                assert(serr =~= seq![Err::<Token, EncodingError>(e)]);
                assert(scan_op::<Token, Opcode>(m, code, serr) == (OpScan::<Opcode>::Enc {
                    code,
                    used: 1int,
                }));
            } else {
                lemma_scan_op_append(m, code, s1, s2);
                lemma_scan_op_append(m, code, s1, seq![Err::<Token, EncodingError>(e)]);
                match scan_op::<Token, Opcode>(m, code, s1) {
                    OpScan::End => {},
                    OpScan::Enc { .. } => {},
                    OpScan::Unknown { .. } => {},
                    OpScan::Found { op, used } => {
                        // the opcode resolved inside the prefix; the split
                        // falls in the argument
                        crate::syntax::prefix::lemma_scan_op_used(m, code, s1);
                        assert(sc == (OpScan::<Opcode>::Found { op, used }));
                        assert(scan_op::<Token, Opcode>(m, code, serr) == (OpScan::<Opcode>::Found {
                            op,
                            used,
                        }));
                        assert(op.arg_kind_spec() != ArgKind::NoArg);
                        let sa = s1.skip(used);
                        assert(s.skip(used) =~= sa + s2);
                        assert(serr.skip(used) =~= sa + seq![Err::<Token, EncodingError>(e)]);
                        assert(sa.push(Err(e)) =~= sa + seq![Err::<Token, EncodingError>(e)]);
                        lemma_resume_arg_shift(m, op, sa, e, s2, used, s1.len() as int);
                    },
                    OpScan::Incomplete { code: c1, used } => {
                        assert(sc == scan_add_used(
                            scan_op::<Token, Opcode>(m, c1, s2),
                            s1.len() as int,
                        ));
                        assert(scan_op::<Token, Opcode>(m, code, serr) == scan_add_used(
                            scan_op::<Token, Opcode>(m, c1, seq![Err::<Token, EncodingError>(e)]),
                            s1.len() as int,
                        ));
                        assert(scan_op::<Token, Opcode>(
                            m,
                            c1,
                            seq![Err::<Token, EncodingError>(e)],
                        ) == (OpScan::<Opcode>::Enc { code: c1, used: 1int }));
                        // the resumed scan continues from the saved sequence
                        let sc2 = scan_op::<Token, Opcode>(m, c1, s2);
                        crate::syntax::prefix::lemma_scan_op_used(m, c1, s2);
                        match sc2 {
                            OpScan::Found { op, used: u2 } => {
                                if op.arg_kind_spec() != ArgKind::NoArg {
                                    assert(s.skip(used + u2) =~= s2.skip(u2));
                                }
                            },
                            _ => {},
                        }
                    },
                }
            }
        },
    }
}

/// The argument-phase core of resumability, for an argument begun with
/// `bits` already read.
proof fn lemma_resume_arg(
    m: Map<int, SpecEntry<Opcode>>,
    op: Opcode,
    bits: Seq<bool>,
    s1: Seq<Result<Token, EncodingError>>,
    e: EncodingError,
    s2: Seq<Result<Token, EncodingError>>,
    shift: int,
)
    requires
        spec_next_arg(op, bits, s1 + s2, shift).item matches Some(SpecInst::Op { .. }),
        spec_next_arg(op, bits, s1 + s2, shift).used - shift > s1.len(),
    ensures
        ({
            let res = spec_next_arg(op, bits, s1 + s2, shift);
            let r1 = spec_next_arg(op, bits, s1.push(Err(e)), shift);
            &&& r1.used == shift + s1.len() + 1
            &&& (match r1.item {
                Some(SpecInst::Fail { e: SpecParseError::Enc { err, .. } }) => err == e,
                _ => false,
            })
            &&& r1.st matches DecodeState::Arg { op: op2, bits: b1 } && op2 == op
                && spec_next_arg(op, b1, s2, 0) == (StepResult {
                item: res.item,
                used: res.used - shift - s1.len(),
                st: res.st,
            })
        }),
{
    let s = s1 + s2;
    let serr = s1.push(Err(e));
    assert(serr =~= s1 + seq![Err::<Token, EncodingError>(e)]);
    assert(serr[s1.len() as int] == Err::<Token, EncodingError>(e));
    lemma_scan_arg_used(bits, s1);
    lemma_scan_arg_append(bits, s1, s2);
    lemma_scan_arg_append(bits, s1, seq![Err::<Token, EncodingError>(e)]);
    match scan_arg(bits, s1) {
        ArgScan::Done { .. } => {},
        ArgScan::Enc { .. } => {},
        ArgScan::Ended { bits: b1, used } => {
            assert(scan_arg(b1, seq![Err::<Token, EncodingError>(e)]) == (ArgScan::Enc {
                bits: b1,
                used: 1int,
            }));
            match scan_arg(b1, s2) {
                ArgScan::Done { bits: bb, used: uu } => {
                    assert(scan_arg(bits, s) == (ArgScan::Done {
                        bits: bb,
                        used: uu + s1.len(),
                    }));
                },
                ArgScan::Ended { .. } => {},
                ArgScan::Enc { .. } => {},
            }
        },
    }
}

/// As `lemma_resume_arg`, with the opcode-phase consumption folded in.
proof fn lemma_resume_arg_shift(
    m: Map<int, SpecEntry<Opcode>>,
    op: Opcode,
    sa: Seq<Result<Token, EncodingError>>,
    e: EncodingError,
    s2: Seq<Result<Token, EncodingError>>,
    used_op: int,
    len1: int,
)
    requires
        used_op + sa.len() == len1,
        used_op >= 0,
        spec_next_arg(op, Seq::empty(), sa + s2, used_op).item matches Some(SpecInst::Op { .. }),
        spec_next_arg(op, Seq::empty(), sa + s2, used_op).used > len1,
    ensures
        ({
            let res = spec_next_arg(op, Seq::empty(), sa + s2, used_op);
            let r1 = spec_next_arg(op, Seq::empty(), sa.push(Err(e)), used_op);
            &&& r1.used == len1 + 1
            &&& (match r1.item {
                Some(SpecInst::Fail { e: SpecParseError::Enc { err, .. } }) => err == e,
                _ => false,
            })
            &&& r1.st matches DecodeState::Arg { op: op2, bits: b1 } && op2 == op
                && spec_next_arg(op, b1, s2, 0) == (StepResult {
                item: res.item,
                used: res.used - len1,
                st: res.st,
            })
        }),
{
    lemma_resume_arg(m, op, Seq::empty(), sa, e, s2, used_op);
}

/// An owned copy of a bit vector.
pub(crate) fn copy_bits(v: &Vec<bool>) -> (r: Vec<bool>)
    ensures
        r@ == v@,
{
    let mut r: Vec<bool> = Vec::new();
    let mut i: usize = 0;
    let n = v.len();
    while i < n
        invariant
            n == v@.len(),
            i <= n,
            r@ == v@.take(i as int),
        decreases n - i,
    {
        r.push(v[i]);
        proof {
            assert(r@ =~= v@.take(i + 1));
        }
        i = i + 1;
    }
    proof {
        assert(v@.take(n as int) =~= v@);
    }
    r
}

/// Adding consumed counts composes.
proof fn lemma_arg_add_used_compose(a: ArgScan, x: int, y: int)
    ensures
        arg_add_used(arg_add_used(a, x), y) == arg_add_used(a, x + y),
{
}

/// The instruction for an opcode that takes no argument.
fn inst_no_arg(op: Opcode) -> (r: RawInst)
    requires
        op.arg_kind_spec() == ArgKind::NoArg,
    ensures
        raw_inst_view(r) == (SpecInst::Op { op, arg: None::<Seq<bool>> }),
{
    match op {
        Opcode::Dup => Inst::Dup,
        Opcode::Swap => Inst::Swap,
        Opcode::Drop => Inst::Drop,
        Opcode::Add => Inst::Add,
        Opcode::Sub => Inst::Sub,
        Opcode::Mul => Inst::Mul,
        Opcode::Div => Inst::Div,
        Opcode::Mod => Inst::Mod,
        Opcode::Store => Inst::Store,
        Opcode::Retrieve => Inst::Retrieve,
        Opcode::Ret => Inst::Ret,
        Opcode::End => Inst::End,
        Opcode::Printc => Inst::Printc,
        Opcode::Printi => Inst::Printi,
        Opcode::Readc => Inst::Readc,
        Opcode::Readi => Inst::Readi,
        Opcode::Shuffle => Inst::Shuffle,
        Opcode::DumpStack => Inst::DumpStack,
        Opcode::DumpHeap => Inst::DumpHeap,
        Opcode::DumpTrace => Inst::DumpTrace,
        _ => Inst::Dup,
    }
}

/// The instruction for an opcode whose argument bits are `bits`.
fn inst_with_arg(op: Opcode, bits: Vec<bool>) -> (r: RawInst)
    requires
        op.arg_kind_spec() != ArgKind::NoArg,
    ensures
        raw_inst_view(r) == (SpecInst::Op { op, arg: Some(bits@) }),
{
    match op {
        Opcode::Push => Inst::Push(bits),
        Opcode::Copy => Inst::Copy(bits),
        Opcode::Slide => Inst::Slide(bits),
        Opcode::Label => Inst::Label(bits),
        Opcode::Call => Inst::Call(bits),
        Opcode::Jmp => Inst::Jmp(bits),
        Opcode::Jz => Inst::Jz(bits),
        Opcode::Jn => Inst::Jn(bits),
        _ => Inst::Push(bits),
    }
}

/// Appends each bit as the token that spelled it.
fn append_bit_tokens(toks: &mut Vec<Token>, bits: &Vec<bool>)
    ensures
        final(toks)@ == old(toks)@ + bits_tokens(bits@),
{
    let mut i: usize = 0;
    let n = bits.len();
    proof {
        assert(toks@ =~= old(toks)@ + bits_tokens(bits@.take(0)));
    }
    while i < n
        invariant
            n == bits@.len(),
            i <= n,
            toks@ == old(toks)@ + bits_tokens(bits@.take(i as int)),
        decreases n - i,
    {
        let tok = if bits[i] {
            Token::T
        } else {
            Token::S
        };
        toks.push(tok);
        proof {
            assert(bits_tokens(bits@.take(i + 1)) =~= bits_tokens(bits@.take(i as int)).push(
                if bits@[i as int] {
                    Token::T
                } else {
                    Token::S
                },
            ));
            assert(toks@ =~= old(toks)@ + bits_tokens(bits@.take(i + 1)));
        }
        i = i + 1;
    }
    proof {
        assert(bits@.take(n as int) =~= bits@);
    }
}

} // verus!
