use core::marker::PhantomData;
use std::collections::HashMap;
use crate::syntax::token_seq::{seq_decode, seq_encode, seq_tokens_valid, TokenSeq};
use crate::syntax::variant::VariantIndex;
use crate::text::iter::{EncodingError, Lexer};
use vstd::prelude::*;

verus! {

broadcast use vstd::std_specs::hash::group_hash_axioms;

/// One trie node: either exactly one opcode ends here, or this sequence is a
/// strict prefix of the listed opcodes.
#[derive(Clone, Debug)]
pub enum PrefixEntry<O> {
    Terminal(O),
    Prefix(Vec<O>),
}

/// The mathematical value of a trie node.
pub ghost enum SpecEntry<O> {
    Terminal(O),
    Prefix(Seq<O>),
}

/// The mathematical value of an executable trie node.
pub open spec fn entry_view<O>(e: PrefixEntry<O>) -> SpecEntry<O> {
    match e {
        PrefixEntry::Terminal(op) => SpecEntry::Terminal(op),
        PrefixEntry::Prefix(l) => SpecEntry::Prefix(l@),
    }
}

/// Two opcodes claim overlapping spellings: `prefix` is the shared sequence
/// and `opcodes` the claimants.
#[derive(Clone, Debug, PartialEq, Eq)]
pub struct ConflictError<T, O> {
    prefix: TokenSeq<T>,
    opcodes: Vec<O>,
}

impl<T: VariantIndex, O> ConflictError<T, O> {
    pub closed spec fn prefix_spec(&self) -> TokenSeq<T> {
        self.prefix
    }

    pub closed spec fn opcodes_spec(&self) -> Seq<O> {
        self.opcodes@
    }

    fn new(prefix: TokenSeq<T>, opcodes: Vec<O>) -> (r: Self)
        ensures
            r.prefix_spec() == prefix,
            r.opcodes_spec() == opcodes@,
    {
        ConflictError { prefix, opcodes }
    }

    /// The shared sequence at which the claims collide.
    pub fn prefix(&self) -> (r: &TokenSeq<T>)
        ensures
            *r == self.prefix_spec(),
    {
        &self.prefix
    }

    /// The opcodes that claim it.
    pub fn opcodes(&self) -> (r: &Vec<O>)
        ensures
            r@ == self.opcodes_spec(),
    {
        &self.opcodes
    }
}

/// Why an opcode could not be registered.
#[derive(Clone, Debug, PartialEq, Eq)]
pub enum InsertError<T, O> {
    /// The opcode's spelling is empty.
    NoSpelling,
    /// The spelling collides with an already-registered opcode.
    Conflict(ConflictError<T, O>),
}

/// Why scanning tokens did not resolve an opcode.
#[derive(Clone, Debug, PartialEq, Eq)]
pub enum PrefixError<T, O> {
    /// The source reported invalid encoding; the sequence scanned so far is
    /// kept so that scanning can resume after it.
    EncodingError(EncodingError, TokenSeq<T>),
    /// The scanned sequence is no prefix of any registered opcode.
    UnknownOpcode(TokenSeq<T>),
    /// The source ended while the sequence was still a strict prefix of the
    /// listed opcodes.
    IncompleteOpcode(TokenSeq<T>, Vec<O>),
}

/// A trie over opcode spellings keyed by the scalar sequence encoding: a
/// preallocated dense array for all sequences up to a configured width, and
/// a hash map for the longer ones.
#[derive(Debug)]
pub struct PrefixTable<T, O> {
    dense: Vec<Option<PrefixEntry<O>>>,
    sparse: HashMap<u32, PrefixEntry<O>>,
    tok: PhantomData<T>,
}

/// The scalar code of the `k`-token prefix of `s`.
pub open spec fn step_code<T: VariantIndex>(s: Seq<T>, k: int) -> int {
    seq_encode(s.take(k))
}

/// Whether `m` marks `code` as a complete opcode.
pub open spec fn is_terminal_at<O>(m: Map<int, SpecEntry<O>>, code: int) -> bool {
    m.contains_key(code) && m[code] is Terminal
}

/// The opcode that ends at `code`.
pub open spec fn terminal_at<O>(m: Map<int, SpecEntry<O>>, code: int) -> O
    recommends
        is_terminal_at(m, code),
{
    m[code]->Terminal_0
}

/// The opcodes `m` lists `code` as a strict prefix of; empty when `code` has
/// no entry.
pub open spec fn prefix_list_at<O>(m: Map<int, SpecEntry<O>>, code: int) -> Seq<O> {
    if m.contains_key(code) && m[code] is Prefix {
        m[code]->Prefix_0
    } else {
        Seq::empty()
    }
}

/// Registers `op` at `code` as one more opcode this sequence is a strict
/// prefix of; a terminal entry is left as it stands.
pub open spec fn add_op<O>(m: Map<int, SpecEntry<O>>, code: int, op: O) -> Map<int, SpecEntry<O>> {
    if m.contains_key(code) {
        match m[code] {
            SpecEntry::Prefix(l) => m.insert(code, SpecEntry::Prefix(l.push(op))),
            SpecEntry::Terminal(_) => m,
        }
    } else {
        m.insert(code, SpecEntry::Prefix(seq![op]))
    }
}

/// Registers `op` along the first `upto` strict-prefix positions of `s`.
pub open spec fn add_prefixes<T: VariantIndex, O>(
    m: Map<int, SpecEntry<O>>,
    s: Seq<T>,
    op: O,
    upto: int,
) -> Map<int, SpecEntry<O>>
    decreases upto,
{
    if upto <= 0 {
        m
    } else {
        add_op(add_prefixes(m, s, op, upto - 1), step_code(s, upto - 1), op)
    }
}

/// The position of the first conflict that inserting spelling `s` into `m`
/// would hit, looking from position `k` on: the first strict-prefix position
/// whose entry is terminal, or `s.len()` when the full spelling's slot is
/// already taken, or `-1` when there is no conflict.
pub open spec fn first_conflict_from<T: VariantIndex, O>(
    m: Map<int, SpecEntry<O>>,
    s: Seq<T>,
    k: int,
) -> int
    decreases s.len() - k,
{
    if k < 0 || k >= s.len() {
        if m.contains_key(seq_encode(s)) {
            s.len() as int
        } else {
            -1
        }
    } else if is_terminal_at(m, step_code(s, k)) {
        k
    } else {
        first_conflict_from(m, s, k + 1)
    }
}

/// The result of scanning tokens against a table from a partial code:
/// `used` counts the items the scan consumed from the source.
pub ghost enum OpScan<O> {
    /// The source ended with no partial sequence: clean end of input.
    End,
    /// A terminal entry was reached.
    Found { op: O, used: int },
    /// The source reported an encoding error at the sequence `code`.
    Enc { code: int, used: int },
    /// The sequence `code` is no prefix of any opcode.
    Unknown { code: int, used: int },
    /// The source ended at the strict prefix `code`.
    Incomplete { code: int, used: int },
}

/// The same scan outcome, with `n` more items counted as consumed.
pub open spec fn scan_add_used<O>(sc: OpScan<O>, n: int) -> OpScan<O> {
    match sc {
        OpScan::End => OpScan::End,
        OpScan::Found { op, used } => OpScan::Found { op, used: used + n },
        OpScan::Enc { code, used } => OpScan::Enc { code, used: used + n },
        OpScan::Unknown { code, used } => OpScan::Unknown { code, used: used + n },
        OpScan::Incomplete { code, used } => OpScan::Incomplete { code, used: used + n },
    }
}

/// One matching pass: extend `code` token by token from the source `s` until
/// a terminal entry resolves, the sequence leaves the table, the source errs,
/// or the source ends.
pub open spec fn scan_op<T: VariantIndex, O>(
    m: Map<int, SpecEntry<O>>,
    code: int,
    s: Seq<Result<T, EncodingError>>,
) -> OpScan<O>
    decreases s.len(),
{
    if s.len() == 0 {
        if code == 0 {
            OpScan::End
        } else if is_terminal_at(m, code) {
            OpScan::Found { op: terminal_at(m, code), used: 0 }
        } else {
            OpScan::Incomplete { code, used: 0 }
        }
    } else {
        match s[0] {
            Err(_) => OpScan::Enc { code, used: 1 },
            Ok(tok) => {
                let code2 = code * T::count_spec() + tok.index_spec() + 1;
                if is_terminal_at(m, code2) {
                    OpScan::Found { op: terminal_at(m, code2), used: 1 }
                } else if m.contains_key(code2) {
                    scan_add_used(scan_op(m, code2, s.drop_first()), 1)
                } else {
                    OpScan::Unknown { code: code2, used: 1 }
                }
            },
        }
    }
}

impl<T, O> PrefixTable<T, O> where T: VariantIndex, O: Copy {
    /// Every key the table holds fits the scalar width, so any sequence whose
    /// code overflows is known to have no entry.
    pub closed spec fn wf(&self) -> bool {
        self.dense@.len() <= u32::MAX + 1
    }

    /// What the table holds at each scalar code.
    pub closed spec fn spec_entry(&self, code: int) -> Option<SpecEntry<O>> {
        if 0 <= code < self.dense@.len() {
            match self.dense@[code] {
                Some(e) => Some(entry_view(e)),
                None => None,
            }
        } else if 0 <= code <= u32::MAX && self.sparse@.contains_key(code as u32) {
            Some(entry_view(self.sparse@[code as u32]))
        } else {
            None
        }
    }

    /// The table as a map from scalar codes to node values.
    pub closed spec fn view(&self) -> Map<int, SpecEntry<O>> {
        Map::new(
            |code: int| self.spec_entry(code) is Some,
            |code: int| self.spec_entry(code).unwrap(),
        )
    }

    /// An empty table with `dense_len` preallocated dense slots.
    pub fn new(dense_len: usize) -> (r: Self)
        requires
            dense_len <= u32::MAX + 1,
        ensures
            r.wf(),
            r@ == Map::<int, SpecEntry<O>>::empty(),
    {
        let mut dense: Vec<Option<PrefixEntry<O>>> = Vec::new();
        let mut i: usize = 0;
        while i < dense_len
            invariant
                i <= dense_len,
                dense@.len() == i,
                forall|j: int| 0 <= j < i ==> #[trigger] dense@[j] is None,
            decreases dense_len - i,
        {
            dense.push(None);
            i = i + 1;
        }
        let r = PrefixTable { dense, sparse: HashMap::new(), tok: PhantomData };
        proof {
            assert(r@ =~= Map::<int, SpecEntry<O>>::empty());
        }
        r
    }

    /// An empty table whose dense part covers all sequences of length at most
    /// `width`.
    pub fn with_dense_width(width: usize) -> (r: Self)
        requires
            crate::syntax::token_seq::max_code(T::count_spec() as int, width as int)
                < u32::MAX,
        ensures
            r.wf(),
            r@ == Map::<int, SpecEntry<O>>::empty(),
    {
        let len = TokenSeq::<T>::size_for(width);
        Self::new(len)
    }

    /// The entry for `seq`, routed to the dense array when the code fits its
    /// width and to the sparse map otherwise.
    pub fn get(&self, seq: TokenSeq<T>) -> (r: Option<&PrefixEntry<O>>)
        requires
            self.wf(),
        ensures
            match r {
                Some(e) => self@.contains_key(seq.encoding()) && entry_view(*e)
                    == self@[seq.encoding()],
                None => !self@.contains_key(seq.encoding()),
            },
    {
        let code = seq.to_u32();
        if (code as usize) < self.dense.len() {
            match &self.dense[code as usize] {
                Some(e) => Some(e),
                None => None,
            }
        } else {
            self.sparse.get(&code)
        }
    }

    /// An owned copy of the entry for code `code`.
    fn get_copy(&self, code: u32) -> (r: Option<PrefixEntry<O>>)
        requires
            self.wf(),
        ensures
            match r {
                Some(e) => self@.contains_key(code as int) && entry_view(e) == self@[code as int],
                None => !self@.contains_key(code as int),
            },
    {
        if (code as usize) < self.dense.len() {
            match &self.dense[code as usize] {
                Some(e) => Some(copy_entry(e)),
                None => None,
            }
        } else {
            match self.sparse.get(&code) {
                Some(e) => Some(copy_entry(e)),
                None => None,
            }
        }
    }

    /// Writes `e` at `code`, leaving every other code as it was.
    fn set_entry(&mut self, code: u32, e: PrefixEntry<O>)
        requires
            old(self).wf(),
        ensures
            final(self).wf(),
            final(self)@ == old(self)@.insert(code as int, entry_view(e)),
    {
        if (code as usize) < self.dense.len() {
            self.dense.set(code as usize, Some(e));
        } else {
            self.sparse.insert(code, e);
        }
        proof {
            assert(self@ =~= old(self)@.insert(code as int, entry_view(e)));
        }
    }
}

/// Prefix codes strictly increase along a spelling, so the positions the
/// insert walk touches are pairwise distinct and all lie below the full code.
pub proof fn lemma_step_codes_increase<T: VariantIndex>(s: Seq<T>, k: int)
    requires
        seq_tokens_valid(s),
        0 <= k < s.len(),
    ensures
        0 <= step_code(s, k) < step_code(s, k + 1),
{
    let p = s.take(k);
    let q = s.take(k + 1);
    assert forall|i: int| 0 <= i < p.len() implies (#[trigger] p[i]).index_spec()
        < T::count_spec() by {
        assert(p[i] == s[i]);
    }
    crate::syntax::token_seq::lemma_encode_nonneg(p);
    assert(q.drop_last() =~= p);
    assert(q.last() == s[k]);
    let c = T::count_spec() as int;
    let e = seq_encode(p);
    assert(s[k].index_spec() < c);
    assert(e * c >= e) by (nonlinear_arith)
        requires
            e >= 0,
            c >= 1,
    ;
}

/// Codes at positions up to `k` stay strictly below the code at `k`.
pub proof fn lemma_step_codes_mono<T: VariantIndex>(s: Seq<T>, j: int, k: int)
    requires
        seq_tokens_valid(s),
        0 <= j < k <= s.len(),
    ensures
        0 <= step_code(s, j) < step_code(s, k),
    decreases k - j,
{
    lemma_step_codes_increase(s, k - 1);
    if j < k - 1 {
        lemma_step_codes_mono(s, j, k - 1);
    } else {
        let p = s.take(j);
        assert forall|i: int| 0 <= i < p.len() implies (#[trigger] p[i]).index_spec()
            < T::count_spec() by {
            assert(p[i] == s[i]);
        }
        crate::syntax::token_seq::lemma_encode_nonneg(p);
    }
}

/// `add_prefixes` leaves every code it does not walk unchanged.
proof fn lemma_add_prefixes_untouched<T: VariantIndex, O>(
    m: Map<int, SpecEntry<O>>,
    s: Seq<T>,
    op: O,
    upto: int,
    x: int,
)
    requires
        forall|k: int| 0 <= k < upto ==> step_code(s, k) != x,
    ensures
        add_prefixes(m, s, op, upto).contains_key(x) == m.contains_key(x),
        m.contains_key(x) ==> add_prefixes(m, s, op, upto)[x] == m[x],
    decreases upto,
{
    if upto > 0 {
        lemma_add_prefixes_untouched(m, s, op, upto - 1, x);
    }
}

/// Skipping conflict-free positions does not move the first conflict.
proof fn lemma_first_conflict_skip<T: VariantIndex, O>(
    m: Map<int, SpecEntry<O>>,
    s: Seq<T>,
    i: int,
)
    requires
        0 <= i <= s.len(),
        forall|k: int| 0 <= k < i ==> !is_terminal_at(m, step_code(s, k)),
    ensures
        first_conflict_from(m, s, 0) == first_conflict_from(m, s, i),
    decreases i,
{
    if i > 0 {
        lemma_first_conflict_skip(m, s, i - 1);
        lemma_first_conflict_chain(m, s, i - 1);
    }
}

/// Unrolls `first_conflict_from` one position.
proof fn lemma_first_conflict_chain<T: VariantIndex, O>(
    m: Map<int, SpecEntry<O>>,
    s: Seq<T>,
    k: int,
)
    requires
        0 <= k < s.len(),
        !is_terminal_at(m, step_code(s, k)),
    ensures
        first_conflict_from(m, s, k) == first_conflict_from(m, s, k + 1),
{
}

impl<T, O> PrefixTable<T, O> where T: VariantIndex, O: Copy {
    /// Registers `opcode` under the spelling `toks`.
    ///
    /// The walk marks every strict prefix of the spelling as a prefix of
    /// `opcode` and the full spelling as its terminal. It fails on an empty
    /// spelling, on the first strict-prefix position some opcode already
    /// ends at, or on a full-spelling slot that is already taken; positions
    /// walked before the failure keep their new prefix marks.
    pub fn insert(&mut self, toks: &[T], opcode: O) -> (r: Result<(), InsertError<T, O>>)
        requires
            old(self).wf(),
            seq_encode(toks@) <= u32::MAX,
        ensures
            final(self).wf(),
            ({
                let m0 = old(self)@;
                let s = toks@;
                let cf = first_conflict_from(m0, s, 0);
                if s.len() == 0 {
                    r == Err::<(), InsertError<T, O>>(InsertError::NoSpelling) && final(self)@
                        == m0
                } else if cf == -1 {
                    r is Ok && final(self)@ == add_prefixes(m0, s, opcode, s.len() as int).insert(
                        seq_encode(s),
                        SpecEntry::Terminal(opcode),
                    )
                } else {
                    &&& final(self)@ == add_prefixes(m0, s, opcode, cf)
                    &&& r matches Err(InsertError::Conflict(ce))
                    &&& ce.prefix_spec().encoding() == step_code(s, cf)
                    &&& ce.opcodes_spec() == if cf < s.len() {
                        seq![terminal_at(m0, step_code(s, cf)), opcode]
                    } else {
                        match m0[seq_encode(s)] {
                            SpecEntry::Terminal(t) => seq![t, opcode],
                            SpecEntry::Prefix(l) => l.push(opcode),
                        }
                    }
                }
            }),
    {
        proof {
            seq_valid_from_exec(toks@);
        }
        if toks.len() == 0 {
            return Err(InsertError::NoSpelling);
        }
        let ghost m0 = old(self)@;
        let ghost s = toks@;
        let mut seq: TokenSeq<T> = TokenSeq::new();
        let mut i: usize = 0;
        let n = toks.len();
        proof {
            assert(s.take(0) =~= Seq::<T>::empty());
        }
        while i < n
            invariant
                self.wf(),
                n == s.len(),
                0 <= i <= n,
                s == toks@,
                m0 == old(self)@,
                seq_tokens_valid(s),
                seq_encode(s) <= u32::MAX,
                seq.encoding() == step_code(s, i as int),
                seq@ == s.take(i as int),
                self@ == add_prefixes(m0, s, opcode, i as int),
                forall|k: int| 0 <= k < i ==> !is_terminal_at(m0, step_code(s, k)),
            decreases n - i,
        {
            proof {
                lemma_insert_walk_bounds(s, i as int);
                assert forall|k: int| 0 <= k < i implies step_code(s, k) != seq.encoding() by {
                    lemma_step_codes_mono(s, k, i as int);
                }
                lemma_add_prefixes_untouched(m0, s, opcode, i as int, seq.encoding());
            }
            let code = seq.to_u32();
            match self.get_copy(code) {
                Some(PrefixEntry::Terminal(t)) => {
                    proof {
                        lemma_first_conflict_skip(m0, s, i as int);
                        assert(is_terminal_at(m0, step_code(s, i as int)));
                        assert(first_conflict_from(m0, s, 0) == i as int);
                        assert(terminal_at(m0, step_code(s, i as int)) == t);
                    }
                    let mut ops: Vec<O> = Vec::new();
                    ops.push(t);
                    ops.push(opcode);
                    proof {
                        assert(ops@ =~= seq![t, opcode]);
                    }
                    return Err(InsertError::Conflict(ConflictError::new(seq, ops)));
                },
                Some(PrefixEntry::Prefix(mut l)) => {
                    l.push(opcode);
                    self.set_entry(code, PrefixEntry::Prefix(l));
                },
                None => {
                    let mut l: Vec<O> = Vec::new();
                    l.push(opcode);
                    self.set_entry(code, PrefixEntry::Prefix(l));
                },
            }
            proof {
                assert(self@ =~= add_prefixes(m0, s, opcode, i + 1));
            }
            let tok = &toks[i];
            proof {
                lemma_insert_push_fits(s, i as int);
                assert(s.take(i + 1).drop_last() =~= s.take(i as int));
            }
            seq.push(tok);
            i = i + 1;
        }
        proof {
            assert(s.take(n as int) =~= s);
            lemma_first_conflict_skip(m0, s, n as int);
            assert forall|k: int| 0 <= k < n implies step_code(s, k) != seq.encoding() by {
                lemma_step_codes_mono(s, k, n as int);
            }
            lemma_add_prefixes_untouched(m0, s, opcode, n as int, seq.encoding());
        }
        let code = seq.to_u32();
        match self.get_copy(code) {
            Some(PrefixEntry::Terminal(t)) => {
                let mut ops: Vec<O> = Vec::new();
                ops.push(t);
                ops.push(opcode);
                Err(InsertError::Conflict(ConflictError::new(seq, ops)))
            },
            Some(PrefixEntry::Prefix(l)) => {
                let mut ops = l;
                ops.push(opcode);
                Err(InsertError::Conflict(ConflictError::new(seq, ops)))
            },
            None => {
                self.set_entry(code, PrefixEntry::Terminal(opcode));
                Ok(())
            },
        }
    }
}

/// Adding `used` counts composes.
proof fn lemma_scan_add_used_compose<O>(sc: OpScan<O>, a: int, b: int)
    ensures
        scan_add_used(scan_add_used(sc, a), b) == scan_add_used(sc, a + b),
{
}

/// How many source items a scan outcome consumed.
pub open spec fn op_scan_used<O>(sc: OpScan<O>) -> int {
    match sc {
        OpScan::End => 0,
        OpScan::Found { used, .. } => used,
        OpScan::Enc { used, .. } => used,
        OpScan::Unknown { used, .. } => used,
        OpScan::Incomplete { used, .. } => used,
    }
}

/// A scan never consumes more items than the source holds.
pub proof fn lemma_scan_op_used<T: VariantIndex, O>(
    m: Map<int, SpecEntry<O>>,
    code: int,
    s: Seq<Result<T, EncodingError>>,
)
    ensures
        0 <= op_scan_used(scan_op(m, code, s)) <= s.len(),
    decreases s.len(),
{
    if s.len() > 0 {
        match s[0] {
            Err(_) => {},
            Ok(tok) => {
                let code2 = code * T::count_spec() + tok.index_spec() + 1;
                lemma_scan_op_used(m, code2, s.drop_first());
            },
        }
    }
}

/// An opcode set whose every member has a registered spelling.
pub trait Tokens: Sized {
    type Token;

    /// The spelling of this opcode.
    spec fn tokens_spec(&self) -> Seq<Self::Token>;

    fn tokens(&self) -> (r: Vec<Self::Token>)
        ensures
            r@ == self.tokens_spec(),
    ;
}

/// The table after one opcode is registered without conflict: every
/// strict prefix of its spelling lists it, and its full spelling becomes
/// its terminal.
pub open spec fn after_insert<T: VariantIndex, O>(
    m: Map<int, SpecEntry<O>>,
    s: Seq<T>,
    op: O,
) -> Map<int, SpecEntry<O>> {
    add_prefixes(m, s, op, s.len() as int).insert(seq_encode(s), SpecEntry::Terminal(op))
}

/// The table after the first `j` opcodes of the set are registered, each
/// without conflict.
pub open spec fn insert_all_fold<T: VariantIndex, O: VariantIndex + Tokens<Token = T>>(
    m0: Map<int, SpecEntry<O>>,
    j: int,
) -> Map<int, SpecEntry<O>>
    decreases j,
{
    if j <= 0 {
        m0
    } else {
        after_insert(
            insert_all_fold::<T, O>(m0, j - 1),
            O::variant_spec((j - 1) as u32).tokens_spec(),
            O::variant_spec((j - 1) as u32),
        )
    }
}

/// Registering the spelling `s` into `m` fails: it is empty, or some
/// opcode already claims part of it.
pub open spec fn insert_conflicts<T: VariantIndex, O>(
    m: Map<int, SpecEntry<O>>,
    s: Seq<T>,
) -> bool {
    s.len() == 0 || first_conflict_from(m, s, 0) != -1
}

impl<T, O> PrefixTable<T, O> where T: VariantIndex, O: Copy {
    /// Scans an opcode from the start of the source.
    pub fn parse<L>(&self, lex: &mut L) -> (r: Option<Result<O, PrefixError<T, O>>>) where
        L: Lexer<Tok = T>,

        requires
            self.wf(),
        ensures
            parse_at_post(*self, old(lex).remaining(), final(lex).remaining(), 0, r),
    {
        self.parse_at(lex, TokenSeq::new())
    }

    /// Scans an opcode, resuming from the already-consumed sequence
    /// `partial`: pulls tokens, extending the sequence, until a terminal
    /// entry resolves (success), the sequence has no entry (unknown opcode),
    /// the source ends on a strict prefix (incomplete), or the source
    /// reports an encoding error (resumable; the sequence so far is carried
    /// in the error).
    pub fn parse_at<L>(&self, lex: &mut L, partial: TokenSeq<T>) -> (r: Option<
        Result<O, PrefixError<T, O>>,
    >) where L: Lexer<Tok = T>
        requires
            self.wf(),
            partial.wf(),
        ensures
            parse_at_post(*self, old(lex).remaining(), final(lex).remaining(), partial.encoding(), r),
    {
        let ghost s0 = old(lex).remaining();
        let ghost m = self@;
        let mut seq = partial;
        loop
            invariant
                self.wf(),
                seq.wf(),
                m == self@,
                s0 == old(lex).remaining(),
                lex.remaining().len() <= s0.len(),
                lex.remaining() == s0.skip(s0.len() - lex.remaining().len()),
                scan_op::<T, O>(m, partial.encoding(), s0) == scan_add_used(
                    scan_op::<T, O>(m, seq.encoding(), lex.remaining()),
                    s0.len() - lex.remaining().len(),
                ),
                s0.len() == lex.remaining().len() || seq.encoding() != 0,
            decreases lex.remaining().len(),
        {
            let ghost pre = lex.remaining();
            let ghost used: int = s0.len() - pre.len();
            match lex.next() {
                None => {
                    if seq.is_empty() {
                        proof {
                            if seq.encoding() != 0 {
                                seq.lemma_encoding_bounds();
                                assert(T::count_spec() > 0);
                                assert(seq_decode::<T>(seq.encoding() as nat).len() > 0);
                            }
                            assert(s0.skip(0) =~= s0);
                        }
                        return None;
                    }
                    match self.get(seq) {
                        Some(PrefixEntry::Terminal(op)) => {
                            return Some(Ok(*op));
                        },
                        Some(PrefixEntry::Prefix(l)) => {
                            let ops = copy_vec(l);
                            return Some(Err(PrefixError::IncompleteOpcode(seq, ops)));
                        },
                        None => {
                            return Some(
                                Err(PrefixError::IncompleteOpcode(seq, Vec::new())),
                            );
                        },
                    }
                },
                Some(Err(e)) => {
                    proof {
                        assert(lex.remaining() =~= s0.skip(used + 1));
                    }
                    return Some(Err(PrefixError::EncodingError(e, seq)));
                },
                Some(Ok(tok)) => {
                    proof {
                        assert(lex.remaining() =~= s0.skip(used + 1));
                    }
                    let count = T::count();
                    let idx = tok.index();
                    let code = seq.to_u32();
                    proof {
                        assert(code as int * count as int + idx as int + 1
                            < 0x1_0000_0000_0000_0000)
                            by (nonlinear_arith)
                            requires
                                code <= u32::MAX,
                                count <= u32::MAX,
                                idx <= u32::MAX,
                        ;
                    }
                    let wide: u64 = code as u64 * count as u64 + idx as u64 + 1;
                    let ghost code2 = seq.encoding() * T::count_spec() + tok.index_spec() + 1;
                    if wide > u32::MAX as u64 {
                        proof {
                            assert(!m.contains_key(code2));
                            assert(!is_terminal_at(m, code2));
                            lemma_scan_add_used_compose(
                                scan_op::<T, O>(m, code2, pre.drop_first()),
                                1,
                                used,
                            );
                        }
                        return Some(Err(PrefixError::UnknownOpcode(seq)));
                    }
                    seq.push(&tok);
                    proof {
                        lemma_scan_add_used_compose(
                            scan_op::<T, O>(m, code2, pre.drop_first()),
                            1,
                            used,
                        );
                        assert(pre.drop_first() =~= lex.remaining());
                    }
                    match self.get(seq) {
                        Some(PrefixEntry::Terminal(op)) => {
                            return Some(Ok(*op));
                        },
                        Some(PrefixEntry::Prefix(_)) => {
                        },
                        None => {
                            return Some(Err(PrefixError::UnknownOpcode(seq)));
                        },
                    }
                },
            }
        }
    }

    /// Registers the whole opcode set: every value of `O`, under its own
    /// spelling. On success the table is consistent with the set: each
    /// opcode's full spelling carries its terminal entry, and every strict
    /// prefix of its spelling lists it as a possible continuation.
    pub fn insert_all(&mut self) -> (r: Result<(), InsertError<T, O>>) where
        O: VariantIndex + Tokens<Token = T>,

        requires
            old(self).wf(),
            forall|j: u32|
                j < O::count_spec() ==> seq_encode(#[trigger] O::variant_spec(j).tokens_spec())
                    <= u32::MAX,
        ensures
            final(self).wf(),
            r is Ok ==> final(self)@ == insert_all_fold::<T, O>(
                old(self)@,
                O::count_spec() as int,
            ),
            r is Ok ==> forall|j: u32|
                j < O::count_spec() ==> table_registers(
                    final(self)@,
                    #[trigger] O::variant_spec(j),
                    O::variant_spec(j).tokens_spec(),
                ),
            r is Err ==> exists|j: u32|
                j < O::count_spec() && insert_conflicts(
                    insert_all_fold::<T, O>(old(self)@, j as int),
                    #[trigger] O::variant_spec(j).tokens_spec(),
                ),
    {
        let ghost m0 = old(self)@;
        let n = O::count();
        let mut j: u32 = 0;
        while j < n
            invariant
                self.wf(),
                m0 == old(self)@,
                n == O::count_spec(),
                j <= n,
                self@ == insert_all_fold::<T, O>(m0, j as int),
                forall|j2: u32|
                    j2 < n ==> seq_encode(#[trigger] O::variant_spec(j2).tokens_spec())
                        <= u32::MAX,
                forall|j2: u32|
                    j2 < j ==> table_registers(
                        self@,
                        #[trigger] O::variant_spec(j2),
                        O::variant_spec(j2).tokens_spec(),
                    ),
            decreases n - j,
        {
            let op = O::variant(j);
            let toks = op.tokens();
            let ghost m_before = self@;
            let ghost s = op.tokens_spec();
            match self.insert(toks.as_slice(), op) {
                Ok(()) => {
                    proof {
                        seq_valid_from_exec(s);
                        lemma_no_conflict(m_before, s, 0);
                        assert forall|j2: u32| j2 < j + 1 implies table_registers(
                            self@,
                            #[trigger] O::variant_spec(j2),
                            O::variant_spec(j2).tokens_spec(),
                        ) by {
                            if j2 < j {
                                lemma_registration_preserved(
                                    m_before,
                                    s,
                                    op,
                                    O::variant_spec(j2),
                                    O::variant_spec(j2).tokens_spec(),
                                );
                            } else {
                                lemma_insert_registers(m_before, s, op);
                            }
                        }
                    }
                },
                Err(e) => {
                    proof {
                        assert(insert_conflicts(
                            insert_all_fold::<T, O>(m0, j as int),
                            O::variant_spec(j).tokens_spec(),
                        ));
                    }
                    return Err(e);
                },
            }
            j = j + 1;
        }
        Ok(())
    }
}

/// What the scan outcome promises of `parse_at`'s result and of the source.
pub open spec fn parse_at_post<T: VariantIndex, O: Copy>(
    table: PrefixTable<T, O>,
    s0: Seq<Result<T, EncodingError>>,
    s1: Seq<Result<T, EncodingError>>,
    code0: int,
    r: Option<Result<O, PrefixError<T, O>>>,
) -> bool {
    let sc = scan_op::<T, O>(table@, code0, s0);
    match sc {
        OpScan::End => r is None && s1 == s0,
        OpScan::Found { op, used } => r == Some(Ok::<O, PrefixError<T, O>>(op)) && s1 == s0.skip(
            used,
        ),
        OpScan::Enc { code, used } => {
            &&& s1 == s0.skip(used)
            &&& r matches Some(Err(PrefixError::EncodingError(e, ts)))
            &&& s0[used - 1] == Err::<T, EncodingError>(e)
            &&& ts.encoding() == code
        },
        OpScan::Unknown { code, used } => {
            &&& s1 == s0.skip(used)
            &&& r matches Some(Err(PrefixError::UnknownOpcode(ts)))
            &&& code <= u32::MAX ==> ts.encoding() == code
        },
        OpScan::Incomplete { code, used } => {
            &&& s1 == s0.skip(used)
            &&& r matches Some(Err(PrefixError::IncompleteOpcode(ts, ops)))
            &&& ts.encoding() == code
            &&& ops@ == prefix_list_at(table@, code)
        },
    }
}

/// `m` registers opcode `op` under spelling `s`: the full spelling is `op`'s
/// terminal, and every strict prefix lists `op`.
pub open spec fn table_registers<T: VariantIndex, O>(
    m: Map<int, SpecEntry<O>>,
    op: O,
    s: Seq<T>,
) -> bool {
    &&& is_terminal_at(m, seq_encode(s))
    &&& terminal_at(m, seq_encode(s)) == op
    &&& forall|k: int|
        0 <= k < s.len() ==> {
            &&& m.contains_key(#[trigger] step_code(s, k))
            &&& m[step_code(s, k)] is Prefix
            &&& m[step_code(s, k)]->Prefix_0.contains(op)
        }
}

/// A conflict-free walk means no strict prefix ends an opcode and the full
/// slot is free.
pub proof fn lemma_no_conflict<T: VariantIndex, O>(m: Map<int, SpecEntry<O>>, s: Seq<T>, k: int)
    requires
        0 <= k <= s.len(),
        first_conflict_from(m, s, k) == -1,
    ensures
        forall|j: int| k <= j < s.len() ==> !is_terminal_at(m, #[trigger] step_code(s, j)),
        !m.contains_key(seq_encode(s)),
    decreases s.len() - k,
{
    if k < s.len() {
        lemma_no_conflict(m, s, k + 1);
    }
}

/// `add_op` never unmakes a terminal, never drops an opcode from a prefix
/// list, and never turns a prefix entry into a terminal.
proof fn lemma_add_op_preserves<O>(m: Map<int, SpecEntry<O>>, code: int, op: O, x: int)
    ensures
        is_terminal_at(m, x) ==> is_terminal_at(add_op(m, code, op), x) && terminal_at(
            add_op(m, code, op),
            x,
        ) == terminal_at(m, x),
        m.contains_key(x) && m[x] is Prefix ==> add_op(m, code, op).contains_key(x) && add_op(
            m,
            code,
            op,
        )[x] is Prefix,
        forall|o2: O|
            m.contains_key(x) && m[x] is Prefix && m[x]->Prefix_0.contains(o2) ==> add_op(
                m,
                code,
                op,
            )[x]->Prefix_0.contains(o2),
{
    if !m.contains_key(code) {
    } else {
        match m[code] {
            SpecEntry::Prefix(l) => {
                if x == code {
                    assert forall|o2: O| l.contains(o2) implies l.push(op).contains(o2) by {
                        let i = choose|i: int| 0 <= i < l.len() && l[i] == o2;
                        assert(l.push(op)[i] == o2);
                    }
                }
            },
            SpecEntry::Terminal(_) => {},
        }
    }
}

/// `add_prefixes` preserves registrations the table already holds.
proof fn lemma_add_prefixes_preserves<T: VariantIndex, O>(
    m: Map<int, SpecEntry<O>>,
    s: Seq<T>,
    op: O,
    upto: int,
    x: int,
)
    ensures
        is_terminal_at(m, x) ==> is_terminal_at(add_prefixes(m, s, op, upto), x) && terminal_at(
            add_prefixes(m, s, op, upto),
            x,
        ) == terminal_at(m, x),
        m.contains_key(x) && m[x] is Prefix ==> add_prefixes(m, s, op, upto).contains_key(x)
            && add_prefixes(m, s, op, upto)[x] is Prefix,
        forall|o2: O|
            m.contains_key(x) && m[x] is Prefix && m[x]->Prefix_0.contains(o2) ==> add_prefixes(
                m,
                s,
                op,
                upto,
            )[x]->Prefix_0.contains(o2),
    decreases upto,
{
    if upto > 0 {
        lemma_add_prefixes_preserves(m, s, op, upto - 1, x);
        lemma_add_op_preserves(add_prefixes(m, s, op, upto - 1), step_code(s, upto - 1), op, x);
    }
}

/// After a conflict-free walk, every strict prefix of `s` lists `op`.
proof fn lemma_add_prefixes_marks<T: VariantIndex, O>(
    m: Map<int, SpecEntry<O>>,
    s: Seq<T>,
    op: O,
    upto: int,
)
    requires
        seq_tokens_valid(s),
        upto <= s.len(),
        forall|j: int| 0 <= j < s.len() ==> !is_terminal_at(m, #[trigger] step_code(s, j)),
    ensures
        forall|k: int|
            0 <= k < upto ==> {
                &&& add_prefixes(m, s, op, upto).contains_key(#[trigger] step_code(s, k))
                &&& add_prefixes(m, s, op, upto)[step_code(s, k)] is Prefix
                &&& add_prefixes(m, s, op, upto)[step_code(s, k)]->Prefix_0.contains(op)
            },
    decreases upto,
{
    if upto > 0 {
        lemma_add_prefixes_marks(m, s, op, upto - 1);
        let prev = add_prefixes(m, s, op, upto - 1);
        let c = step_code(s, upto - 1);
        // the walked position is not terminal in `prev` either
        assert forall|j: int| 0 <= j < upto - 1 implies step_code(s, j) != c by {
            lemma_step_codes_mono(s, j, upto - 1);
        }
        lemma_add_prefixes_untouched(m, s, op, upto - 1, c);
        let cur = add_op(prev, c, op);
        if prev.contains_key(c) {
            match prev[c] {
                SpecEntry::Prefix(l) => {
                    assert(cur[c]->Prefix_0 == l.push(op));
                    assert(l.push(op)[l.len() as int] == op);
                },
                SpecEntry::Terminal(_) => {
                    assert(false);
                },
            }
        } else {
            assert(cur[c]->Prefix_0 == seq![op]);
            assert(seq![op][0] == op);
        }
        // earlier marks survive this add_op
        assert forall|k: int| 0 <= k < upto - 1 implies {
            &&& cur.contains_key(#[trigger] step_code(s, k))
            &&& cur[step_code(s, k)] is Prefix
            &&& cur[step_code(s, k)]->Prefix_0.contains(op)
        } by {
            lemma_add_op_preserves(prev, c, op, step_code(s, k));
        }
    }
}

/// One successful insert registers its opcode.
pub proof fn lemma_insert_registers<T: VariantIndex, O>(m: Map<int, SpecEntry<O>>, s: Seq<T>, op: O)
    requires
        seq_tokens_valid(s),
        s.len() > 0,
        first_conflict_from(m, s, 0) == -1,
    ensures
        table_registers(
            add_prefixes(m, s, op, s.len() as int).insert(seq_encode(s), SpecEntry::Terminal(op)),
            op,
            s,
        ),
{
    lemma_no_conflict(m, s, 0);
    lemma_add_prefixes_marks(m, s, op, s.len() as int);
    let grown = add_prefixes(m, s, op, s.len() as int);
    let m2 = grown.insert(seq_encode(s), SpecEntry::Terminal(op));
    assert(s.take(s.len() as int) =~= s);
    assert forall|k: int| 0 <= k < s.len() implies {
        &&& m2.contains_key(#[trigger] step_code(s, k))
        &&& m2[step_code(s, k)] is Prefix
        &&& m2[step_code(s, k)]->Prefix_0.contains(op)
    } by {
        lemma_step_codes_mono(s, k, s.len() as int);
    }
}

/// A successful insert of a fresh spelling keeps every registration that was
/// already in the table.
pub proof fn lemma_registration_preserved<T: VariantIndex, O>(
    m: Map<int, SpecEntry<O>>,
    s: Seq<T>,
    op: O,
    op2: O,
    s2: Seq<T>,
)
    requires
        seq_tokens_valid(s),
        s.len() > 0,
        first_conflict_from(m, s, 0) == -1,
        table_registers(m, op2, s2),
    ensures
        table_registers(
            add_prefixes(m, s, op, s.len() as int).insert(seq_encode(s), SpecEntry::Terminal(op)),
            op2,
            s2,
        ),
{
    lemma_no_conflict(m, s, 0);
    let grown = add_prefixes(m, s, op, s.len() as int);
    let m2 = grown.insert(seq_encode(s), SpecEntry::Terminal(op));
    lemma_add_prefixes_preserves(m, s, op, s.len() as int, seq_encode(s2));
    assert(seq_encode(s) != seq_encode(s2)) by {
        // the full slot was free, but `s2`'s slot is terminal
        assert(is_terminal_at(m, seq_encode(s2)));
    }
    assert forall|k: int| 0 <= k < s2.len() implies {
        &&& m2.contains_key(#[trigger] step_code(s2, k))
        &&& m2[step_code(s2, k)] is Prefix
        &&& m2[step_code(s2, k)]->Prefix_0.contains(op2)
    } by {
        lemma_add_prefixes_preserves(m, s, op, s.len() as int, step_code(s2, k));
        assert(step_code(s2, k) != seq_encode(s)) by {
            assert(grown.contains_key(step_code(s2, k)) && grown[step_code(s2, k)] is Prefix);
        }
    }
}

/// `add_prefixes` makes no new terminal: a terminal of the result was a
/// terminal already.
pub proof fn lemma_add_prefixes_terminal_src<T: VariantIndex, O>(
    m: Map<int, SpecEntry<O>>,
    s: Seq<T>,
    op: O,
    upto: int,
    x: int,
)
    requires
        is_terminal_at(add_prefixes(m, s, op, upto), x),
    ensures
        is_terminal_at(m, x),
    decreases upto,
{
    if upto > 0 {
        let prev = add_prefixes(m, s, op, upto - 1);
        let c = step_code(s, upto - 1);
        if prev.contains_key(c) {
            match prev[c] {
                SpecEntry::Prefix(_) => {},
                SpecEntry::Terminal(_) => {},
            }
        }
        lemma_add_prefixes_terminal_src(m, s, op, upto - 1, x);
    }
}

/// Every key `add_prefixes` adds is one of the walked prefix positions.
pub proof fn lemma_add_prefixes_key_src<T: VariantIndex, O>(
    m: Map<int, SpecEntry<O>>,
    s: Seq<T>,
    op: O,
    upto: int,
    x: int,
)
    requires
        add_prefixes(m, s, op, upto).contains_key(x),
    ensures
        m.contains_key(x) || exists|k: int| 0 <= k < upto && x == step_code(s, k),
    decreases upto,
{
    if upto > 0 {
        let prev = add_prefixes(m, s, op, upto - 1);
        let c = step_code(s, upto - 1);
        if x != c {
            lemma_add_prefixes_key_src(m, s, op, upto - 1, x);
        } else {
            assert(0 <= upto - 1 < upto && x == step_code(s, upto - 1));
        }
    }
}

/// Every terminal of a registration fold marks the full spelling of one of
/// the registered opcodes, unless it was a terminal to begin with.
pub proof fn lemma_fold_terminal_src<T: VariantIndex, O: VariantIndex + Tokens<Token = T>>(
    m0: Map<int, SpecEntry<O>>,
    j: int,
    x: int,
)
    requires
        is_terminal_at(insert_all_fold::<T, O>(m0, j), x),
    ensures
        is_terminal_at(m0, x) || exists|i: int|
            0 <= i < j && x == seq_encode(#[trigger] O::variant_spec(i as u32).tokens_spec()),
    decreases j,
{
    if j > 0 {
        let prev = insert_all_fold::<T, O>(m0, j - 1);
        let s = O::variant_spec((j - 1) as u32).tokens_spec();
        let op = O::variant_spec((j - 1) as u32);
        if x == seq_encode(s) {
            assert(0 <= j - 1 < j && x == seq_encode(O::variant_spec((j - 1) as u32).tokens_spec()));
        } else {
            lemma_add_prefixes_terminal_src(prev, s, op, s.len() as int, x);
            lemma_fold_terminal_src::<T, O>(m0, j - 1, x);
        }
    }
}

/// Every key of a registration fold is a prefix position or the full code
/// of one of the registered opcodes, unless it was a key to begin with.
pub proof fn lemma_fold_key_src<T: VariantIndex, O: VariantIndex + Tokens<Token = T>>(
    m0: Map<int, SpecEntry<O>>,
    j: int,
    x: int,
)
    requires
        insert_all_fold::<T, O>(m0, j).contains_key(x),
    ensures
        m0.contains_key(x) || exists|i: int|
            0 <= i < j && (x == seq_encode(#[trigger] O::variant_spec(i as u32).tokens_spec())
                || exists|k: int|
                0 <= k < O::variant_spec(i as u32).tokens_spec().len() && x == #[trigger] step_code(
                    O::variant_spec(i as u32).tokens_spec(),
                    k,
                )),
    decreases j,
{
    if j > 0 {
        let prev = insert_all_fold::<T, O>(m0, j - 1);
        let s = O::variant_spec((j - 1) as u32).tokens_spec();
        let op = O::variant_spec((j - 1) as u32);
        if x == seq_encode(s) {
            assert(0 <= j - 1 < j && x == seq_encode(O::variant_spec((j - 1) as u32).tokens_spec()));
        } else {
            lemma_add_prefixes_key_src(prev, s, op, s.len() as int, x);
            if prev.contains_key(x) {
                lemma_fold_key_src::<T, O>(m0, j - 1, x);
            } else {
                let k = choose|k: int| 0 <= k < s.len() && x == step_code(s, k);
                assert(0 <= j - 1 < j && 0 <= k < O::variant_spec(
                    (j - 1) as u32,
                ).tokens_spec().len() && x == step_code(
                    O::variant_spec((j - 1) as u32).tokens_spec(),
                    k,
                ));
            }
        }
    }
}

/// The first prefix position encodes the empty sequence.
pub proof fn lemma_step_code_zero<T: VariantIndex>(s: Seq<T>)
    ensures
        step_code(s, 0) == 0,
{
    assert(s.take(0) =~= Seq::<T>::empty());
}

/// Each next prefix position extends the previous one by one token.
pub proof fn lemma_step_code_succ<T: VariantIndex>(s: Seq<T>, k: int)
    requires
        0 <= k < s.len(),
    ensures
        step_code(s, k + 1) == step_code(s, k) * T::count_spec() + s[k].index_spec() + 1,
{
    assert(s.take(k + 1).drop_last() =~= s.take(k));
    assert(s.take(k + 1).last() == s[k]);
}

/// The last prefix position is the full spelling.
pub proof fn lemma_step_code_full<T: VariantIndex>(s: Seq<T>)
    ensures
        step_code(s, s.len() as int) == seq_encode(s),
{
    assert(s.take(s.len() as int) =~= s);
}

/// A walk that meets no terminal and whose full slot is free has no
/// conflict.
pub proof fn lemma_conflict_free<T: VariantIndex, O>(
    m: Map<int, SpecEntry<O>>,
    s: Seq<T>,
    k: int,
)
    requires
        0 <= k <= s.len(),
        forall|k2: int| k <= k2 < s.len() ==> !is_terminal_at(m, #[trigger] step_code(s, k2)),
        !m.contains_key(seq_encode(s)),
    ensures
        first_conflict_from(m, s, k) == -1,
    decreases s.len() - k,
{
    if k < s.len() {
        lemma_conflict_free(m, s, k + 1);
    }
}

/// An owned copy of an opcode list.
fn copy_vec<O: Copy>(v: &Vec<O>) -> (r: Vec<O>)
    ensures
        r@ == v@,
{
    let mut r: Vec<O> = Vec::new();
    let mut i: usize = 0;
    let n = v.len();
    while i < n
        invariant
            n == v@.len(),
            i <= n,
            r@ == v@.take(i as int),
        decreases n - i,
    {
        r.push(v[i]);
        proof {
            assert(r@ =~= v@.take(i + 1));
        }
        i = i + 1;
    }
    proof {
        assert(v@.take(n as int) =~= v@);
    }
    r
}

/// Tokens that executable code holds are valid by construction.
pub proof fn seq_valid_from_exec<T: VariantIndex>(s: Seq<T>)
    ensures
        seq_tokens_valid(s),
{
    assert forall|i: int| 0 <= i < s.len() implies (#[trigger] s[i]).index_spec()
        < T::count_spec() by {
        s[i].lemma_index_valid();
    }
}

/// The code walked at position `i` stays within the scalar width.
proof fn lemma_insert_walk_bounds<T: VariantIndex>(s: Seq<T>, i: int)
    requires
        seq_tokens_valid(s),
        seq_encode(s) <= u32::MAX,
        0 <= i <= s.len(),
    ensures
        0 <= step_code(s, i) <= u32::MAX,
{
    crate::syntax::token_seq::lemma_encode_nonneg(s.take(i));
    assert(seq_tokens_valid(s.take(i))) by {
        seq_valid_from_exec(s.take(i));
    }
    if i < s.len() {
        lemma_step_codes_mono(s, i, s.len() as int);
        assert(s.take(s.len() as int) =~= s);
    } else {
        assert(s.take(i) =~= s);
    }
}

/// Pushing token `i` onto the prefix of length `i` stays within the width.
proof fn lemma_insert_push_fits<T: VariantIndex>(s: Seq<T>, i: int)
    requires
        seq_tokens_valid(s),
        seq_encode(s) <= u32::MAX,
        0 <= i < s.len(),
    ensures
        step_code(s, i) * T::count_spec() + s[i].index_spec() + 1 == step_code(s, i + 1),
        step_code(s, i + 1) <= u32::MAX,
        0 <= step_code(s, i),
{
    assert(s.take(i + 1).drop_last() =~= s.take(i));
    assert(s.take(i + 1).last() == s[i]);
    lemma_insert_walk_bounds(s, i + 1);
    lemma_insert_walk_bounds(s, i);
}

/// An owned copy of a trie node.
fn copy_entry<O: Copy>(e: &PrefixEntry<O>) -> (r: PrefixEntry<O>)
    ensures
        entry_view(r) == entry_view(*e),
{
    match e {
        PrefixEntry::Terminal(op) => PrefixEntry::Terminal(*op),
        PrefixEntry::Prefix(l) => PrefixEntry::Prefix(copy_vec(l)),
    }
}

} // verus!
