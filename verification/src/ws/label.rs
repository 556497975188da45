use crate::ws::inst::{ArgKind, Inst, Opcode, RawInst};
use crate::ws::integer::Int;
use crate::ws::parse::{copy_bits, raw_inst_view, SpecInst, SpecParseError};
use vstd::prelude::*;

verus! {

/// A dense label identifier, assigned sequentially during resolution.
#[derive(Clone, Copy, Debug, PartialEq, Eq, PartialOrd, Ord, Hash, Structural)]
pub struct LabelId(pub u32);

/// The position of an instruction in the decoded list.
#[derive(Clone, Copy, Debug, PartialEq, Eq, PartialOrd, Ord, Hash, Structural)]
pub struct InstId(pub u32);

/// An instruction whose label arguments are dense identifiers and whose
/// integer arguments are wrapped sign-magnitude values.
pub type ProgramInst = Inst<Int, LabelId>;

/// The ordering policy for assigning label identifiers.
#[derive(Clone, Copy, Debug, PartialEq, Eq, Hash, Structural)]
pub enum LabelOrder {
    /// In order of definition: definitions assign identifiers first, in
    /// stream order; patterns never defined get theirs afterwards, in
    /// first-use order.
    Def,
    /// In order of first definition or use, whichever comes first.
    DefOrUse,
}

impl Default for LabelOrder {
    fn default() -> (r: Self)
        ensures
            r == LabelOrder::Def,
    {
        LabelOrder::Def
    }
}

/// The resolution strategy for duplicate label definitions, recorded for
/// downstream passes; this component only records positions.
#[derive(Clone, Copy, Debug, PartialEq, Eq, Hash, Structural)]
pub enum LabelDupes {
    /// Duplicate labels are not allowed.
    Unique,
    /// The first definition is used.
    First,
    /// The last definition is used.
    Last,
}

/// What is known of one label: its canonical bit pattern and where it is
/// defined and used. Its identifier is its position in the label table.
#[derive(Clone, Debug, PartialEq, Eq, Hash)]
pub struct LabelData {
    id: LabelId,
    bits: Vec<bool>,
    defs: Vec<InstId>,
    uses: Vec<InstId>,
}

/// The mathematical value of one label record.
pub ghost struct SpecLabel {
    pub bits: Seq<bool>,
    pub defs: Seq<int>,
    pub uses: Seq<int>,
}

impl LabelData {
    pub closed spec fn view(&self) -> SpecLabel {
        SpecLabel {
            bits: self.bits@,
            defs: self.defs@.map_values(|d: InstId| d.0 as int),
            uses: self.uses@.map_values(|u: InstId| u.0 as int),
        }
    }

    pub closed spec fn id_spec(&self) -> LabelId {
        self.id
    }

    /// A fresh record for `bits`, with no definitions or uses yet.
    pub fn new(id: LabelId, bits: Vec<bool>) -> (r: Self)
        ensures
            r.id_spec() == id,
            r@ == (SpecLabel { bits: bits@, defs: Seq::empty(), uses: Seq::empty() }),
    {
        let r = LabelData { id, bits, defs: Vec::new(), uses: Vec::new() };
        proof {
            assert(r@.defs =~= Seq::<int>::empty());
            assert(r@.uses =~= Seq::<int>::empty());
        }
        r
    }

    /// Records `inst` as a definition when `opcode` is the label-marking
    /// opcode, and as a use otherwise.
    pub fn push_def_or_use(&mut self, inst: InstId, opcode: Opcode)
        ensures
            final(self).id_spec() == old(self).id_spec(),
            final(self)@ == spec_label_record(old(self)@, inst.0 as int, opcode == Opcode::Label),
    {
        if opcode == Opcode::Label {
            self.push_def(inst);
        } else {
            self.push_use(inst);
        }
    }

    pub fn push_def(&mut self, inst: InstId)
        ensures
            final(self).id_spec() == old(self).id_spec(),
            final(self)@ == (SpecLabel {
                bits: old(self)@.bits,
                defs: old(self)@.defs.push(inst.0 as int),
                uses: old(self)@.uses,
            }),
    {
        self.defs.push(inst);
        proof {
            assert(self@.defs =~= old(self)@.defs.push(inst.0 as int));
        }
    }

    pub fn push_use(&mut self, inst: InstId)
        ensures
            final(self).id_spec() == old(self).id_spec(),
            final(self)@ == (SpecLabel {
                bits: old(self)@.bits,
                defs: old(self)@.defs,
                uses: old(self)@.uses.push(inst.0 as int),
            }),
    {
        self.uses.push(inst);
        proof {
            assert(self@.uses =~= old(self)@.uses.push(inst.0 as int));
        }
    }

    /// The canonical bit pattern.
    pub fn bits(&self) -> (r: &Vec<bool>)
        ensures
            r@ == self@.bits,
    {
        &self.bits
    }

    /// Positions of the instructions that define this label.
    pub fn defs(&self) -> (r: &Vec<InstId>)
        ensures
            r@.map_values(|d: InstId| d.0 as int) == self@.defs,
    {
        &self.defs
    }

    /// Positions of the instructions that use this label.
    pub fn uses(&self) -> (r: &Vec<InstId>)
        ensures
            r@.map_values(|u: InstId| u.0 as int) == self@.uses,
    {
        &self.uses
    }
}

/// `rec` with `pos` appended to its definitions or uses.
pub open spec fn spec_label_record(rec: SpecLabel, pos: int, is_def: bool) -> SpecLabel {
    if is_def {
        SpecLabel { bits: rec.bits, defs: rec.defs.push(pos), uses: rec.uses }
    } else {
        SpecLabel { bits: rec.bits, defs: rec.defs, uses: rec.uses.push(pos) }
    }
}

/// The identifier of the record for `bits`: its index in the table, or `-1`
/// when no record holds it.
pub open spec fn find_label(ls: Seq<SpecLabel>, bits: Seq<bool>) -> int
    decreases ls.len(),
{
    if ls.len() == 0 {
        -1
    } else if ls[0].bits == bits {
        0
    } else {
        let r = find_label(ls.drop_first(), bits);
        if r < 0 {
            -1
        } else {
            r + 1
        }
    }
}

/// The identifier `spec_insert` gives the pattern: the existing one, or the
/// next sequential one.
pub open spec fn insert_id(ls: Seq<SpecLabel>, bits: Seq<bool>) -> int {
    if find_label(ls, bits) >= 0 {
        find_label(ls, bits)
    } else {
        ls.len() as int
    }
}

/// Records `pos` as a definition or use of `bits`, creating the record
/// lazily on the pattern's first sighting.
pub open spec fn spec_insert(ls: Seq<SpecLabel>, bits: Seq<bool>, pos: int, is_def: bool) -> Seq<
    SpecLabel,
> {
    let i = find_label(ls, bits);
    if i >= 0 {
        ls.update(i, spec_label_record(ls[i], pos, is_def))
    } else {
        ls.push(spec_label_record(SpecLabel { bits, defs: Seq::empty(), uses: Seq::empty() }, pos, is_def))
    }
}

/// The label-argument bits of an instruction, if it has any.
pub open spec fn label_arg_of(iv: SpecInst) -> Option<(Opcode, Seq<bool>)> {
    match iv {
        SpecInst::Op { op, arg: Some(bits) } => {
            if op.arg_kind_spec() == ArgKind::LabelArg {
                Some((op, bits))
            } else {
                None
            }
        },
        _ => None,
    }
}

/// Pass over positions `j..`, recording only label definitions.
pub open spec fn fold_defs_from(ls: Seq<SpecLabel>, ivs: Seq<SpecInst>, j: int) -> Seq<SpecLabel>
    decreases ivs.len() - j,
{
    if j < 0 || j >= ivs.len() {
        ls
    } else {
        let ls2 = match label_arg_of(ivs[j]) {
            Some((op, bits)) => if op == Opcode::Label {
                spec_insert(ls, bits, j, true)
            } else {
                ls
            },
            None => ls,
        };
        fold_defs_from(ls2, ivs, j + 1)
    }
}

/// Pass over positions `j..`, recording only label uses.
pub open spec fn fold_uses_from(ls: Seq<SpecLabel>, ivs: Seq<SpecInst>, j: int) -> Seq<SpecLabel>
    decreases ivs.len() - j,
{
    if j < 0 || j >= ivs.len() {
        ls
    } else {
        let ls2 = match label_arg_of(ivs[j]) {
            Some((op, bits)) => if op != Opcode::Label {
                spec_insert(ls, bits, j, false)
            } else {
                ls
            },
            None => ls,
        };
        fold_uses_from(ls2, ivs, j + 1)
    }
}

/// Single pass over positions `j..`, recording definitions and uses as they
/// come.
pub open spec fn fold_all_from(ls: Seq<SpecLabel>, ivs: Seq<SpecInst>, j: int) -> Seq<SpecLabel>
    decreases ivs.len() - j,
{
    if j < 0 || j >= ivs.len() {
        ls
    } else {
        let ls2 = match label_arg_of(ivs[j]) {
            Some((op, bits)) => spec_insert(ls, bits, j, op == Opcode::Label),
            None => ls,
        };
        fold_all_from(ls2, ivs, j + 1)
    }
}

/// The label table a full resolution pass leaves behind.
pub open spec fn spec_labels_after(
    ls: Seq<SpecLabel>,
    ivs: Seq<SpecInst>,
    order: LabelOrder,
) -> Seq<SpecLabel> {
    match order {
        LabelOrder::Def => fold_uses_from(fold_defs_from(ls, ivs, 0), ivs, 0),
        LabelOrder::DefOrUse => fold_all_from(ls, ivs, 0),
    }
}

/// The argument of a resolved instruction.
pub ghost enum SpecProgArg {
    IntArg(Seq<bool>),
    LabelArg(int),
}

/// The mathematical value of one resolved instruction.
pub ghost enum SpecProgInst {
    Op { op: Opcode, arg: Option<SpecProgArg> },
    Fail { e: SpecParseError },
}

/// The mathematical value of one resolved instruction.
pub open spec fn prog_inst_view(i: ProgramInst) -> SpecProgInst {
    match i {
        Inst::Push(n) => SpecProgInst::Op {
            op: Opcode::Push,
            arg: Some(SpecProgArg::IntArg(n.bits_spec())),
        },
        Inst::Dup => SpecProgInst::Op { op: Opcode::Dup, arg: None },
        Inst::Copy(n) => SpecProgInst::Op {
            op: Opcode::Copy,
            arg: Some(SpecProgArg::IntArg(n.bits_spec())),
        },
        Inst::Swap => SpecProgInst::Op { op: Opcode::Swap, arg: None },
        Inst::Drop => SpecProgInst::Op { op: Opcode::Drop, arg: None },
        Inst::Slide(n) => SpecProgInst::Op {
            op: Opcode::Slide,
            arg: Some(SpecProgArg::IntArg(n.bits_spec())),
        },
        Inst::Add => SpecProgInst::Op { op: Opcode::Add, arg: None },
        Inst::Sub => SpecProgInst::Op { op: Opcode::Sub, arg: None },
        Inst::Mul => SpecProgInst::Op { op: Opcode::Mul, arg: None },
        Inst::Div => SpecProgInst::Op { op: Opcode::Div, arg: None },
        Inst::Mod => SpecProgInst::Op { op: Opcode::Mod, arg: None },
        Inst::Store => SpecProgInst::Op { op: Opcode::Store, arg: None },
        Inst::Retrieve => SpecProgInst::Op { op: Opcode::Retrieve, arg: None },
        Inst::Label(l) => SpecProgInst::Op {
            op: Opcode::Label,
            arg: Some(SpecProgArg::LabelArg(l.0 as int)),
        },
        Inst::Call(l) => SpecProgInst::Op {
            op: Opcode::Call,
            arg: Some(SpecProgArg::LabelArg(l.0 as int)),
        },
        Inst::Jmp(l) => SpecProgInst::Op {
            op: Opcode::Jmp,
            arg: Some(SpecProgArg::LabelArg(l.0 as int)),
        },
        Inst::Jz(l) => SpecProgInst::Op {
            op: Opcode::Jz,
            arg: Some(SpecProgArg::LabelArg(l.0 as int)),
        },
        Inst::Jn(l) => SpecProgInst::Op {
            op: Opcode::Jn,
            arg: Some(SpecProgArg::LabelArg(l.0 as int)),
        },
        Inst::Ret => SpecProgInst::Op { op: Opcode::Ret, arg: None },
        Inst::End => SpecProgInst::Op { op: Opcode::End, arg: None },
        Inst::Printc => SpecProgInst::Op { op: Opcode::Printc, arg: None },
        Inst::Printi => SpecProgInst::Op { op: Opcode::Printi, arg: None },
        Inst::Readc => SpecProgInst::Op { op: Opcode::Readc, arg: None },
        Inst::Readi => SpecProgInst::Op { op: Opcode::Readi, arg: None },
        Inst::Shuffle => SpecProgInst::Op { op: Opcode::Shuffle, arg: None },
        Inst::DumpStack => SpecProgInst::Op { op: Opcode::DumpStack, arg: None },
        Inst::DumpHeap => SpecProgInst::Op { op: Opcode::DumpHeap, arg: None },
        Inst::DumpTrace => SpecProgInst::Op { op: Opcode::DumpTrace, arg: None },
        Inst::Error(e) => SpecProgInst::Fail {
            e: match e {
                crate::ws::inst::InstError::ParseError(pe) => crate::ws::parse::parse_error_view(
                    pe,
                ),
            },
        },
    }
}

/// What a raw instruction resolves to, with label identifiers looked up in
/// the finished table `ls_fin`.
pub open spec fn spec_output(iv: SpecInst, ls_fin: Seq<SpecLabel>) -> SpecProgInst {
    match iv {
        SpecInst::Fail { e } => SpecProgInst::Fail { e },
        SpecInst::Op { op, arg: None } => SpecProgInst::Op { op, arg: None },
        SpecInst::Op { op, arg: Some(bits) } => match op.arg_kind_spec() {
            ArgKind::IntArg => SpecProgInst::Op { op, arg: Some(SpecProgArg::IntArg(bits)) },
            ArgKind::LabelArg => SpecProgInst::Op {
                op,
                arg: Some(SpecProgArg::LabelArg(find_label(ls_fin, bits))),
            },
            ArgKind::NoArg => SpecProgInst::Op { op, arg: None },
        },
    }
}

/// `find_label` returns an in-range index of the record holding the
/// pattern, or `-1`.
pub proof fn lemma_find_label_range(ls: Seq<SpecLabel>, bits: Seq<bool>)
    ensures
        -1 <= find_label(ls, bits) < ls.len(),
        find_label(ls, bits) >= 0 ==> ls[find_label(ls, bits)].bits == bits,
    decreases ls.len(),
{
    if ls.len() > 0 && ls[0].bits != bits {
        lemma_find_label_range(ls.drop_first(), bits);
    }
}

/// Updating a record in place, without changing its pattern, moves no
/// identifier.
proof fn lemma_find_update(ls: Seq<SpecLabel>, i: int, rec: SpecLabel, b2: Seq<bool>)
    requires
        0 <= i < ls.len(),
        rec.bits == ls[i].bits,
    ensures
        find_label(ls.update(i, rec), b2) == find_label(ls, b2),
    decreases ls.len(),
{
    let ls2 = ls.update(i, rec);
    if i == 0 {
        if ls[0].bits != b2 {
            assert(ls2.drop_first() =~= ls.drop_first());
        }
    } else {
        if ls[0].bits != b2 {
            assert(ls2.drop_first() =~= ls.drop_first().update(i - 1, rec));
            lemma_find_update(ls.drop_first(), i - 1, rec, b2);
        } else {
            assert(ls2[0].bits == b2);
        }
    }
}

/// Appending a new record moves no existing identifier, and gives a pattern
/// not yet present the next sequential identifier.
proof fn lemma_find_push(ls: Seq<SpecLabel>, rec: SpecLabel, b2: Seq<bool>)
    ensures
        find_label(ls, b2) >= 0 ==> find_label(ls.push(rec), b2) == find_label(ls, b2),
        find_label(ls, b2) < 0 && rec.bits == b2 ==> find_label(ls.push(rec), b2)
            == ls.len() as int,
        find_label(ls, b2) < 0 && rec.bits != b2 ==> find_label(ls.push(rec), b2) < 0,
    decreases ls.len(),
{
    if ls.len() == 0 {
        assert(ls.push(rec)[0] == rec);
        if rec.bits != b2 {
            assert(find_label(ls.push(rec).drop_first(), b2) < 0);
        }
    } else {
        if ls[0].bits != b2 {
            assert(ls.push(rec).drop_first() =~= ls.drop_first().push(rec));
            lemma_find_push(ls.drop_first(), rec, b2);
        }
    }
}

/// One recording step keeps every present pattern at its identifier, makes
/// the recorded pattern present, and grows the table by at most one record.
pub proof fn lemma_insert_stable(
    ls: Seq<SpecLabel>,
    bits: Seq<bool>,
    pos: int,
    is_def: bool,
    b2: Seq<bool>,
)
    ensures
        find_label(ls, b2) >= 0 ==> find_label(spec_insert(ls, bits, pos, is_def), b2)
            == find_label(ls, b2),
        find_label(spec_insert(ls, bits, pos, is_def), bits) == insert_id(ls, bits),
        ls.len() <= spec_insert(ls, bits, pos, is_def).len() <= ls.len() + 1,
{
    lemma_find_label_range(ls, bits);
    let i = find_label(ls, bits);
    if i >= 0 {
        lemma_find_update(ls, i, spec_label_record(ls[i], pos, is_def), b2);
        lemma_find_update(ls, i, spec_label_record(ls[i], pos, is_def), bits);
    } else {
        let rec = spec_label_record(
            SpecLabel { bits, defs: Seq::empty(), uses: Seq::empty() },
            pos,
            is_def,
        );
        lemma_find_push(ls, rec, b2);
        lemma_find_push(ls, rec, bits);
    }
}

/// How many positions from `j` on the running pass records something for.
pub open spec fn count_pass(ivs: Seq<SpecInst>, j: int, which: LabelOrder, defs_pass: bool) -> int
    decreases ivs.len() - j,
{
    if j < 0 || j >= ivs.len() {
        0
    } else {
        let here: int = match label_arg_of(ivs[j]) {
            Some((op, _)) => {
                if which == LabelOrder::DefOrUse {
                    1
                } else if defs_pass == (op == Opcode::Label) {
                    1
                } else {
                    0
                }
            },
            None => 0,
        };
        here + count_pass(ivs, j + 1, which, defs_pass)
    }
}

/// The two definition-order passes together touch each position at most
/// once, and one pass never touches more positions than remain.
proof fn lemma_count_bounds(ivs: Seq<SpecInst>, j: int)
    requires
        0 <= j <= ivs.len(),
    ensures
        count_pass(ivs, j, LabelOrder::Def, true) + count_pass(ivs, j, LabelOrder::Def, false)
            <= ivs.len() - j,
        count_pass(ivs, j, LabelOrder::DefOrUse, false) <= ivs.len() - j,
        count_pass(ivs, j, LabelOrder::Def, true) >= 0,
        count_pass(ivs, j, LabelOrder::Def, false) >= 0,
        count_pass(ivs, j, LabelOrder::DefOrUse, false) >= 0,
    decreases ivs.len() - j,
{
    if j < ivs.len() {
        lemma_count_bounds(ivs, j + 1);
    }
}

/// Whole passes keep every present pattern at its identifier and grow the
/// table by at most one record per instruction.
pub proof fn lemma_fold_stable(
    ls: Seq<SpecLabel>,
    ivs: Seq<SpecInst>,
    j: int,
    which: LabelOrder,
    defs_pass: bool,
    b2: Seq<bool>,
)
    ensures
        find_label(ls, b2) >= 0 ==> find_label(fold_pass(ls, ivs, j, which, defs_pass), b2)
            == find_label(ls, b2),
        ls.len() <= fold_pass(ls, ivs, j, which, defs_pass).len() <= ls.len() + if j < ivs.len() {
            ivs.len() - j
        } else {
            0
        },
    decreases ivs.len() - j,
{
    if 0 <= j < ivs.len() {
        let ls2 = fold_pass_step(ls, ivs, j, which, defs_pass);
        match label_arg_of(ivs[j]) {
            Some((op, bits)) => {
                lemma_insert_stable(ls, bits, j, op == Opcode::Label, b2);
            },
            None => {},
        }
        lemma_fold_stable(ls2, ivs, j + 1, which, defs_pass, b2);
    }
}

/// One step of whichever pass is running.
pub open spec fn fold_pass_step(
    ls: Seq<SpecLabel>,
    ivs: Seq<SpecInst>,
    j: int,
    which: LabelOrder,
    defs_pass: bool,
) -> Seq<SpecLabel> {
    match label_arg_of(ivs[j]) {
        Some((op, bits)) => {
            if which == LabelOrder::DefOrUse {
                spec_insert(ls, bits, j, op == Opcode::Label)
            } else if defs_pass {
                if op == Opcode::Label {
                    spec_insert(ls, bits, j, true)
                } else {
                    ls
                }
            } else {
                if op != Opcode::Label {
                    spec_insert(ls, bits, j, false)
                } else {
                    ls
                }
            }
        },
        None => ls,
    }
}

/// Whichever pass is running, from position `j` on.
pub open spec fn fold_pass(
    ls: Seq<SpecLabel>,
    ivs: Seq<SpecInst>,
    j: int,
    which: LabelOrder,
    defs_pass: bool,
) -> Seq<SpecLabel> {
    if which == LabelOrder::DefOrUse {
        fold_all_from(ls, ivs, j)
    } else if defs_pass {
        fold_defs_from(ls, ivs, j)
    } else {
        fold_uses_from(ls, ivs, j)
    }
}

/// Replaces every raw label bit pattern across an instruction list with a
/// dense identifier, recording each pattern's definition and use sites.
#[derive(Debug)]
pub struct LabelResolver {
    labels: Vec<LabelData>,
}

impl LabelResolver {
    /// The label table built so far; a label's identifier is its index.
    pub closed spec fn view(&self) -> Seq<SpecLabel> {
        self.labels@.map_values(|l: LabelData| l@)
    }

    pub closed spec fn wf(&self) -> bool {
        &&& self.labels@.len() <= u32::MAX
        &&& forall|i: int|
            0 <= i < self.labels@.len() ==> (#[trigger] self.labels@[i]).id_spec() == LabelId(
                i as u32,
            )
    }

    /// An empty resolver.
    pub fn new() -> (r: Self)
        ensures
            r.wf(),
            r@ == Seq::<SpecLabel>::empty(),
    {
        let r = LabelResolver { labels: Vec::new() };
        proof {
            assert(r@ =~= Seq::<SpecLabel>::empty());
        }
        r
    }

    /// The label records, in identifier order.
    pub fn labels(&self) -> (r: &Vec<LabelData>)
        ensures
            r@.map_values(|l: LabelData| l@) == self@,
    {
        &self.labels
    }

    /// The identifier of `bits`, or `None` when it has no record yet.
    fn find(&self, bits: &Vec<bool>) -> (r: Option<usize>)
        requires
            self.wf(),
        ensures
            match r {
                Some(i) => find_label(self@, bits@) == i,
                None => find_label(self@, bits@) < 0,
            },
    {
        let n = self.labels.len();
        let mut i: usize = 0;
        while i < n
            invariant
                self.wf(),
                n == self.labels@.len(),
                i <= n,
                forall|k: int| 0 <= k < i ==> (#[trigger] self@[k]).bits != bits@,
            decreases n - i,
        {
            if bits_eq(self.labels[i].bits(), bits) {
                proof {
                    lemma_find_first(self@, bits@, i as int);
                }
                return Some(i);
            }
            i = i + 1;
        }
        proof {
            lemma_find_absent(self@, bits@);
        }
        None
    }

    /// Records `inst` as a definition or use of `bits`, creating the record
    /// on first sighting, and returns the pattern's identifier.
    fn insert(&mut self, bits: Vec<bool>, inst: InstId, opcode: Opcode) -> (r: LabelId)
        requires
            old(self).wf(),
            old(self)@.len() < u32::MAX,
        ensures
            final(self).wf(),
            final(self)@ == spec_insert(
                old(self)@,
                bits@,
                inst.0 as int,
                opcode == Opcode::Label,
            ),
            r.0 as int == insert_id(old(self)@, bits@),
    {
        proof {
            lemma_find_label_range(self@, bits@);
        }
        match self.find(&bits) {
            Some(i) => {
                let rec = &mut self.labels[i];
                rec.push_def_or_use(inst, opcode);
                proof {
                    assert(self@ =~= spec_insert(
                        old(self)@,
                        bits@,
                        inst.0 as int,
                        opcode == Opcode::Label,
                    ));
                }
                LabelId(i as u32)
            },
            None => {
                let id = LabelId(self.labels.len() as u32);
                let mut rec = LabelData::new(id, bits);
                rec.push_def_or_use(inst, opcode);
                self.labels.push(rec);
                proof {
                    assert(self@ =~= spec_insert(
                        old(self)@,
                        bits@,
                        inst.0 as int,
                        opcode == Opcode::Label,
                    ));
                }
                id
            },
        }
    }

    /// Resolves one instruction at position `id`: an integer argument is
    /// wrapped, a label argument is recorded and replaced by its identifier,
    /// anything else passes through.
    pub fn resolve(&mut self, inst: RawInst, id: InstId) -> (r: ProgramInst)
        requires
            old(self).wf(),
            old(self)@.len() < u32::MAX,
        ensures
            final(self).wf(),
            final(self)@ == ({
                match label_arg_of(raw_inst_view(inst)) {
                    Some((op, bits)) => spec_insert(
                        old(self)@,
                        bits,
                        id.0 as int,
                        op == Opcode::Label,
                    ),
                    None => old(self)@,
                }
            }),
            prog_inst_view(r) == spec_output_at(raw_inst_view(inst), old(self)@),
    {
        match inst {
            Inst::Push(n) => Inst::Push(Int::from_bits(n)),
            Inst::Dup => Inst::Dup,
            Inst::Copy(n) => Inst::Copy(Int::from_bits(n)),
            Inst::Swap => Inst::Swap,
            Inst::Drop => Inst::Drop,
            Inst::Slide(n) => Inst::Slide(Int::from_bits(n)),
            Inst::Add => Inst::Add,
            Inst::Sub => Inst::Sub,
            Inst::Mul => Inst::Mul,
            Inst::Div => Inst::Div,
            Inst::Mod => Inst::Mod,
            Inst::Store => Inst::Store,
            Inst::Retrieve => Inst::Retrieve,
            Inst::Label(l) => Inst::Label(self.insert(l, id, Opcode::Label)),
            Inst::Call(l) => Inst::Call(self.insert(l, id, Opcode::Call)),
            Inst::Jmp(l) => Inst::Jmp(self.insert(l, id, Opcode::Jmp)),
            Inst::Jz(l) => Inst::Jz(self.insert(l, id, Opcode::Jz)),
            Inst::Jn(l) => Inst::Jn(self.insert(l, id, Opcode::Jn)),
            Inst::Ret => Inst::Ret,
            Inst::End => Inst::End,
            Inst::Printc => Inst::Printc,
            Inst::Printi => Inst::Printi,
            Inst::Readc => Inst::Readc,
            Inst::Readi => Inst::Readi,
            Inst::Shuffle => Inst::Shuffle,
            Inst::DumpStack => Inst::DumpStack,
            Inst::DumpHeap => Inst::DumpHeap,
            Inst::DumpTrace => Inst::DumpTrace,
            Inst::Error(e) => Inst::Error(e),
        }
    }
}

impl LabelResolver {
    /// Resolves a whole instruction list under the chosen ordering policy.
    ///
    /// Under definition order, a first pass visits only label-defining
    /// instructions in stream order, so identifiers follow the program
    /// text's definition order; a second pass resolves everything else,
    /// giving never-defined patterns their identifiers in first-use order.
    /// Under definition-or-use order, one pass fixes each pattern's
    /// identifier at its first appearance of either kind.
    pub fn resolve_all(&mut self, insts: Vec<RawInst>, order: LabelOrder) -> (r: Vec<ProgramInst>)
        requires
            old(self).wf(),
            old(self)@.len() + insts@.len() < u32::MAX,
        ensures
            final(self).wf(),
            final(self)@ == spec_labels_after(
                old(self)@,
                insts@.map_values(|i: RawInst| raw_inst_view(i)),
                order,
            ),
            r@.len() == insts@.len(),
            forall|j: int|
                0 <= j < r@.len() ==> prog_inst_view(#[trigger] r@[j]) == spec_output(
                    insts@.map_values(|i: RawInst| raw_inst_view(i))[j],
                    spec_labels_after(
                        old(self)@,
                        insts@.map_values(|i: RawInst| raw_inst_view(i)),
                        order,
                    ),
                ),
    {
        match order {
            LabelOrder::Def => self.resolve_def_order(insts),
            LabelOrder::DefOrUse => self.resolve_def_or_use(insts),
        }
    }

    fn resolve_def_order(&mut self, insts: Vec<RawInst>) -> (r: Vec<ProgramInst>)
        requires
            old(self).wf(),
            old(self)@.len() + insts@.len() < u32::MAX,
        ensures
            final(self).wf(),
            final(self)@ == spec_labels_after(
                old(self)@,
                insts@.map_values(|i: RawInst| raw_inst_view(i)),
                LabelOrder::Def,
            ),
            r@.len() == insts@.len(),
            forall|j: int|
                0 <= j < r@.len() ==> prog_inst_view(#[trigger] r@[j]) == spec_output(
                    insts@.map_values(|i: RawInst| raw_inst_view(i))[j],
                    spec_labels_after(
                        old(self)@,
                        insts@.map_values(|i: RawInst| raw_inst_view(i)),
                        LabelOrder::Def,
                    ),
                ),
    {
        let ghost ivs = insts@.map_values(|i: RawInst| raw_inst_view(i));
        let ghost ls0 = self@;
        let ghost ls_mid = fold_defs_from(ls0, ivs, 0);
        let ghost ls_fin = fold_uses_from(ls_mid, ivs, 0);
        let n = insts.len();
        let mut out: Vec<Option<ProgramInst>> = Vec::new();
        let mut j: usize = 0;
        while j < n
            invariant
                j <= n,
                out@.len() == j,
                forall|k: int| 0 <= k < j ==> #[trigger] out@[k] is None,
            decreases n - j,
        {
            out.push(None);
            j = j + 1;
        }
        // Pass 1: label definitions, in stream order.
        proof {
            lemma_count_bounds(ivs, 0);
        }
        j = 0;
        while j < n
            invariant
                self.wf(),
                n == insts@.len(),
                j <= n,
                ivs == insts@.map_values(|i: RawInst| raw_inst_view(i)),
                ls0.len() + n < u32::MAX,
                self@.len() + count_pass(ivs, j as int, LabelOrder::Def, true) <= ls0.len()
                    + count_pass(ivs, 0, LabelOrder::Def, true),
                count_pass(ivs, 0, LabelOrder::Def, true) + count_pass(
                    ivs,
                    0,
                    LabelOrder::Def,
                    false,
                ) <= n,
                fold_defs_from(self@, ivs, j as int) == ls_mid,
                ls_fin == fold_uses_from(ls_mid, ivs, 0),
                out@.len() == n,
                forall|k: int| j <= k < n ==> #[trigger] out@[k] is None,
                forall|k: int|
                    0 <= k < j ==> match #[trigger] out@[k] {
                        Some(p) => prog_inst_view(p) == spec_output(ivs[k], ls_fin),
                        None => true,
                    },
                forall|k: int|
                    0 <= k < j && (match label_arg_of(ivs[k]) {
                        Some((op, _)) => op == Opcode::Label,
                        None => false,
                    }) ==> !((#[trigger] out@[k]) is None),
            decreases n - j,
        {
            let ghost pre = self@;
            proof {
                lemma_count_bounds(ivs, 0);
                lemma_count_bounds(ivs, j as int);
                lemma_count_bounds(ivs, j + 1);
            }
            match &insts[j] {
                Inst::Label(l) => {
                    let b = copy_bits(l);
                    let lid = self.insert(b, InstId(j as u32), Opcode::Label);
                    proof {
                        lemma_insert_stable(pre, l@, j as int, true, l@);
                        lemma_fold_stable(self@, ivs, j + 1, LabelOrder::Def, true, l@);
                        lemma_fold_stable(ls_mid, ivs, 0, LabelOrder::Def, false, l@);
                        assert(find_label(ls_fin, l@) == lid.0 as int);
                    }
                    out.set(j, Some(Inst::Label(lid)));
                },
                _ => {
                },
            }
            j = j + 1;
        }
        // Pass 2: everything else, allocating identifiers for patterns that
        // were never defined, in first-use order.
        let mut insts = insts;
        let ghost orig = insts@;
        proof {
            lemma_count_bounds(ivs, 0);
        }
        j = 0;
        while j < n
            invariant
                self.wf(),
                n == orig.len(),
                j <= n,
                insts@ == orig.skip(j as int),
                ivs == orig.map_values(|i: RawInst| raw_inst_view(i)),
                ls0.len() + n < u32::MAX,
                self@.len() + count_pass(ivs, j as int, LabelOrder::Def, false) <= ls0.len() + n,
                fold_uses_from(self@, ivs, j as int) == ls_fin,
                out@.len() == n,
                forall|k: int|
                    0 <= k < j ==> match #[trigger] out@[k] {
                        Some(p) => prog_inst_view(p) == spec_output(ivs[k], ls_fin),
                        None => false,
                    },
                forall|k: int|
                    j <= k < n ==> match #[trigger] out@[k] {
                        Some(p) => prog_inst_view(p) == spec_output(ivs[k], ls_fin),
                        None => true,
                    },
                forall|k: int|
                    j <= k < n && (match label_arg_of(ivs[k]) {
                        Some((op, _)) => op == Opcode::Label,
                        None => false,
                    }) ==> !((#[trigger] out@[k]) is None),
            decreases n - j,
        {
            let ghost pre = self@;
            proof {
                lemma_count_bounds(ivs, 0);
                lemma_count_bounds(ivs, j as int);
                lemma_count_bounds(ivs, j + 1);
            }
            let inst = insts.remove(0);
            proof {
                assert(inst == orig[j as int]);
                assert(insts@ =~= orig.skip(j + 1));
            }
            match inst {
                Inst::Label(_) => {
                    // resolved in pass 1
                    proof {
                        assert(!(out@[j as int] is None));
                    }
                },
                other => {
                    let p = self.resolve(other, InstId(j as u32));
                    proof {
                        match label_arg_of(ivs[j as int]) {
                            Some((op, bits)) => {
                                lemma_insert_stable(pre, bits, j as int, false, bits);
                                lemma_fold_stable(
                                    self@,
                                    ivs,
                                    j + 1,
                                    LabelOrder::Def,
                                    false,
                                    bits,
                                );
                                lemma_find_label_range(pre, bits);
                            },
                            None => {},
                        }
                    }
                    out.set(j, Some(p));
                },
            }
            j = j + 1;
        }
        // Collect, in order.
        let mut res: Vec<ProgramInst> = Vec::new();
        let ghost out0 = out@;
        j = 0;
        while j < n
            invariant
                n == out0.len(),
                j <= n,
                out@ == out0.skip(j as int),
                res@.len() == j,
                forall|k: int|
                    0 <= k < n ==> match #[trigger] out0[k] {
                        Some(p) => prog_inst_view(p) == spec_output(ivs[k], ls_fin),
                        None => false,
                    },
                forall|k: int|
                    0 <= k < j ==> prog_inst_view(#[trigger] res@[k]) == spec_output(
                        ivs[k],
                        ls_fin,
                    ),
            decreases n - j,
        {
            let slot = out.remove(0);
            proof {
                assert(slot == out0[j as int]);
                assert(out@ =~= out0.skip(j + 1));
            }
            match slot {
                Some(p) => {
                    res.push(p);
                },
                None => {
                    proof {
                        assert(false);
                    }
                },
            }
            j = j + 1;
        }
        res
    }

    fn resolve_def_or_use(&mut self, insts: Vec<RawInst>) -> (r: Vec<ProgramInst>)
        requires
            old(self).wf(),
            old(self)@.len() + insts@.len() < u32::MAX,
        ensures
            final(self).wf(),
            final(self)@ == spec_labels_after(
                old(self)@,
                insts@.map_values(|i: RawInst| raw_inst_view(i)),
                LabelOrder::DefOrUse,
            ),
            r@.len() == insts@.len(),
            forall|j: int|
                0 <= j < r@.len() ==> prog_inst_view(#[trigger] r@[j]) == spec_output(
                    insts@.map_values(|i: RawInst| raw_inst_view(i))[j],
                    spec_labels_after(
                        old(self)@,
                        insts@.map_values(|i: RawInst| raw_inst_view(i)),
                        LabelOrder::DefOrUse,
                    ),
                ),
    {
        let ghost ivs = insts@.map_values(|i: RawInst| raw_inst_view(i));
        let ghost ls0 = self@;
        let ghost ls_fin = fold_all_from(ls0, ivs, 0);
        let n = insts.len();
        let mut insts = insts;
        let ghost orig = insts@;
        proof {
            lemma_count_bounds(ivs, 0);
        }
        let mut res: Vec<ProgramInst> = Vec::new();
        let mut j: usize = 0;
        while j < n
            invariant
                self.wf(),
                n == orig.len(),
                j <= n,
                insts@ == orig.skip(j as int),
                ivs == orig.map_values(|i: RawInst| raw_inst_view(i)),
                ls0.len() + n < u32::MAX,
                self@.len() + count_pass(ivs, j as int, LabelOrder::DefOrUse, false) <= ls0.len()
                    + n,
                fold_all_from(self@, ivs, j as int) == ls_fin,
                res@.len() == j,
                forall|k: int|
                    0 <= k < j ==> prog_inst_view(#[trigger] res@[k]) == spec_output(
                        ivs[k],
                        ls_fin,
                    ),
            decreases n - j,
        {
            let ghost pre = self@;
            proof {
                lemma_count_bounds(ivs, 0);
                lemma_count_bounds(ivs, j as int);
                lemma_count_bounds(ivs, j + 1);
            }
            let inst = insts.remove(0);
            proof {
                assert(inst == orig[j as int]);
                assert(insts@ =~= orig.skip(j + 1));
            }
            let p = self.resolve(inst, InstId(j as u32));
            proof {
                match label_arg_of(ivs[j as int]) {
                    Some((op, bits)) => {
                        lemma_insert_stable(pre, bits, j as int, op == Opcode::Label, bits);
                        lemma_fold_stable(
                            self@,
                            ivs,
                            j + 1,
                            LabelOrder::DefOrUse,
                            false,
                            bits,
                        );
                        lemma_find_label_range(pre, bits);
                    },
                    None => {},
                }
            }
            res.push(p);
            j = j + 1;
        }
        res
    }
}

/// What `resolve` yields, with the identifier taken at recording time: for
/// a label argument, the identifier the pattern has (or now gets) in `ls`.
pub open spec fn spec_output_at(iv: SpecInst, ls: Seq<SpecLabel>) -> SpecProgInst {
    match iv {
        SpecInst::Fail { e } => SpecProgInst::Fail { e },
        SpecInst::Op { op, arg: None } => SpecProgInst::Op { op, arg: None },
        SpecInst::Op { op, arg: Some(bits) } => match op.arg_kind_spec() {
            ArgKind::IntArg => SpecProgInst::Op { op, arg: Some(SpecProgArg::IntArg(bits)) },
            ArgKind::LabelArg => SpecProgInst::Op {
                op,
                arg: Some(SpecProgArg::LabelArg(insert_id(ls, bits))),
            },
            ArgKind::NoArg => SpecProgInst::Op { op, arg: None },
        },
    }
}

/// The pattern at the first matching index is found there.
proof fn lemma_find_first(ls: Seq<SpecLabel>, bits: Seq<bool>, i: int)
    requires
        0 <= i < ls.len(),
        ls[i].bits == bits,
        forall|k: int| 0 <= k < i ==> (#[trigger] ls[k]).bits != bits,
    ensures
        find_label(ls, bits) == i,
    decreases i,
{
    if i > 0 {
        assert(ls.drop_first()[i - 1] == ls[i]);
        assert forall|k: int| 0 <= k < i - 1 implies (#[trigger] ls.drop_first()[k]).bits
            != bits by {
            assert(ls.drop_first()[k] == ls[k + 1]);
        }
        lemma_find_first(ls.drop_first(), bits, i - 1);
    }
}

/// A pattern no record holds is not found.
proof fn lemma_find_absent(ls: Seq<SpecLabel>, bits: Seq<bool>)
    requires
        forall|k: int| 0 <= k < ls.len() ==> (#[trigger] ls[k]).bits != bits,
    ensures
        find_label(ls, bits) < 0,
    decreases ls.len(),
{
    if ls.len() > 0 {
        assert forall|k: int| 0 <= k < ls.drop_first().len() implies (#[trigger] ls.drop_first()[
            k
        ]).bits != bits by {
            assert(ls.drop_first()[k] == ls[k + 1]);
        }
        lemma_find_absent(ls.drop_first(), bits);
    }
}

/// Label resolution is deterministic: for one raw instruction list and one
/// ordering policy, repeated runs build the same label table — and so, by
/// `resolve_all`'s contract, assign identical identifiers to identical bit
/// patterns.
pub proof fn lemma_resolution_deterministic(
    ls: Seq<SpecLabel>,
    a: Seq<SpecInst>,
    b: Seq<SpecInst>,
    order: LabelOrder,
)
    requires
        a == b,
    ensures
        spec_labels_after(ls, a, order) == spec_labels_after(ls, b, order),
{
}

/// Position `j` defines the pattern `bits`.
pub open spec fn is_def_at(ivs: Seq<SpecInst>, j: int, bits: Seq<bool>) -> bool {
    label_arg_of(ivs[j]) == Some((Opcode::Label, bits))
}

/// The definitions pass over positions `0 .. j` only.
pub open spec fn fold_defs_upto(ls: Seq<SpecLabel>, ivs: Seq<SpecInst>, j: int) -> Seq<SpecLabel>
    decreases j,
{
    if j <= 0 {
        ls
    } else {
        let prev = fold_defs_upto(ls, ivs, j - 1);
        match label_arg_of(ivs[j - 1]) {
            Some((op, bits)) => if op == Opcode::Label {
                spec_insert(prev, bits, j - 1, true)
            } else {
                prev
            },
            None => prev,
        }
    }
}

/// The suffix pass is the prefix pass continued.
proof fn lemma_fold_defs_split(ls: Seq<SpecLabel>, ivs: Seq<SpecInst>, j: int)
    requires
        0 <= j <= ivs.len(),
    ensures
        fold_defs_from(ls, ivs, 0) == fold_defs_from(fold_defs_upto(ls, ivs, j), ivs, j),
    decreases j,
{
    if j > 0 {
        lemma_fold_defs_split(ls, ivs, j - 1);
        lemma_fold_defs_step(ls, ivs, j - 1);
    }
}

/// Peeling one position off the suffix pass.
proof fn lemma_fold_defs_step(ls: Seq<SpecLabel>, ivs: Seq<SpecInst>, j: int)
    requires
        0 <= j < ivs.len(),
    ensures
        fold_defs_from(fold_defs_upto(ls, ivs, j), ivs, j) == fold_defs_from(
            fold_defs_upto(ls, ivs, j + 1),
            ivs,
            j + 1,
        ),
{
}

/// A pattern never defined among the first `j` positions, and absent at the
/// start, is still absent after the prefix pass.
proof fn lemma_fold_defs_absent(ls: Seq<SpecLabel>, ivs: Seq<SpecInst>, j: int, x: Seq<bool>)
    requires
        0 <= j <= ivs.len(),
        find_label(ls, x) < 0,
        forall|k: int| 0 <= k < j ==> !is_def_at(ivs, k, x),
    ensures
        find_label(fold_defs_upto(ls, ivs, j), x) < 0,
        ls.len() <= fold_defs_upto(ls, ivs, j).len(),
    decreases j,
{
    if j > 0 {
        lemma_fold_defs_absent(ls, ivs, j - 1, x);
        let prev = fold_defs_upto(ls, ivs, j - 1);
        match label_arg_of(ivs[j - 1]) {
            Some((op, bits)) => {
                if op == Opcode::Label {
                    assert(!is_def_at(ivs, j - 1, x));
                    assert(bits != x);
                    lemma_find_label_range(prev, bits);
                    let i = find_label(prev, bits);
                    if i >= 0 {
                        lemma_find_update(prev, i, spec_label_record(prev[i], j - 1, true), x);
                    } else {
                        let rec = spec_label_record(
                            SpecLabel { bits, defs: Seq::empty(), uses: Seq::empty() },
                            j - 1,
                            true,
                        );
                        lemma_find_push(prev, rec, x);
                    }
                }
            },
            None => {},
        }
    }
}

/// A pattern present after the prefix pass keeps its identifier through the
/// rest of the prefix pass.
proof fn lemma_fold_defs_upto_stable(
    ls: Seq<SpecLabel>,
    ivs: Seq<SpecInst>,
    j1: int,
    j2: int,
    y: Seq<bool>,
)
    requires
        0 <= j1 <= j2 <= ivs.len(),
        find_label(fold_defs_upto(ls, ivs, j1), y) >= 0,
    ensures
        find_label(fold_defs_upto(ls, ivs, j2), y) == find_label(fold_defs_upto(ls, ivs, j1), y),
        fold_defs_upto(ls, ivs, j1).len() <= fold_defs_upto(ls, ivs, j2).len(),
    decreases j2 - j1,
{
    if j1 < j2 {
        let prev = fold_defs_upto(ls, ivs, j2 - 1);
        lemma_fold_defs_upto_stable(ls, ivs, j1, j2 - 1, y);
        match label_arg_of(ivs[j2 - 1]) {
            Some((op, bits)) => {
                if op == Opcode::Label {
                    lemma_insert_stable(prev, bits, j2 - 1, true, y);
                }
            },
            None => {},
        }
    }
}

/// The definition-order guarantee: when resolution starts fresh and runs
/// under the definition-order policy, a pattern whose first definition
/// stands earlier in the instruction list gets the smaller identifier —
/// wherever either pattern is first used.
pub proof fn lemma_def_order_ids(
    ivs: Seq<SpecInst>,
    x: Seq<bool>,
    y: Seq<bool>,
    dx: int,
    dy: int,
)
    requires
        0 <= dy < dx < ivs.len(),
        is_def_at(ivs, dx, x),
        is_def_at(ivs, dy, y),
        x != y,
        forall|k: int| 0 <= k < dx ==> !is_def_at(ivs, k, x),
    ensures
        ({
            let ls_fin = spec_labels_after(Seq::empty(), ivs, LabelOrder::Def);
            0 <= find_label(ls_fin, y) < find_label(ls_fin, x)
        }),
{
    let ls0 = Seq::<SpecLabel>::empty();
    let ls_mid = fold_defs_from(ls0, ivs, 0);
    let ls_fin = fold_uses_from(ls_mid, ivs, 0);

    // y is present once its definition at dy is processed
    let before_y = fold_defs_upto(ls0, ivs, dy);
    let after_y = fold_defs_upto(ls0, ivs, dy + 1);
    lemma_find_label_range(before_y, y);
    lemma_insert_stable(before_y, y, dy, true, y);
    assert(after_y == spec_insert(before_y, y, dy, true));
    assert(find_label(after_y, y) >= 0);
    lemma_find_label_range(after_y, y);
    assert(find_label(after_y, y) < after_y.len());

    // x is still absent when its first definition at dx is reached
    let before_x = fold_defs_upto(ls0, ivs, dx);
    let after_x = fold_defs_upto(ls0, ivs, dx + 1);
    lemma_fold_defs_absent(ls0, ivs, dx, x);
    assert(find_label(before_x, x) < 0);
    lemma_insert_stable(before_x, x, dx, true, x);
    assert(after_x == spec_insert(before_x, x, dx, true));
    assert(find_label(after_x, x) == before_x.len() as int);

    // y keeps its identifier, which is below x's
    lemma_fold_defs_upto_stable(ls0, ivs, dy + 1, dx, y);
    lemma_fold_defs_upto_stable(ls0, ivs, dy + 1, dx + 1, y);
    assert(find_label(after_x, y) == find_label(after_y, y));
    assert(after_y.len() <= before_x.len());
    assert(find_label(after_x, y) < find_label(after_x, x));

    // both identifiers survive to the end of the definitions pass
    lemma_fold_defs_split(ls0, ivs, dx + 1);
    lemma_fold_stable(after_x, ivs, dx + 1, LabelOrder::Def, true, x);
    lemma_fold_stable(after_x, ivs, dx + 1, LabelOrder::Def, true, y);
    assert(ls_mid == fold_defs_from(after_x, ivs, dx + 1));

    // and through the uses pass
    lemma_fold_stable(ls_mid, ivs, 0, LabelOrder::Def, false, x);
    lemma_fold_stable(ls_mid, ivs, 0, LabelOrder::Def, false, y);
}

/// Two bit vectors hold the same bits.
fn bits_eq(a: &Vec<bool>, b: &Vec<bool>) -> (r: bool)
    ensures
        r == (a@ == b@),
{
    if a.len() != b.len() {
        return false;
    }
    let n = a.len();
    let mut i: usize = 0;
    while i < n
        invariant
            n == a@.len() == b@.len(),
            i <= n,
            forall|k: int| 0 <= k < i ==> a@[k] == b@[k],
        decreases n - i,
    {
        if a[i] != b[i] {
            return false;
        }
        i = i + 1;
    }
    proof {
        assert(a@ =~= b@);
    }
    true
}

} // verus!
