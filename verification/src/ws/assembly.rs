//! Mnemonic tables for assembler-style surface syntax: maps textual
//! instruction names to opcodes, with a conflict check on insertion.

use crate::ws::inst::Opcode;
use vstd::prelude::*;
use vstd::string::StringExecFns;

verus! {

/// A mnemonic was already claimed by a different opcode.
#[derive(Debug, PartialEq, Eq)]
pub struct MnemonicError {
    mnemonic: String,
    old: Opcode,
    new: Opcode,
}

impl MnemonicError {
    pub closed spec fn mnemonic_spec(&self) -> Seq<char> {
        self.mnemonic@
    }

    pub closed spec fn old_spec(&self) -> Opcode {
        self.old
    }

    pub closed spec fn new_spec(&self) -> Opcode {
        self.new
    }

    /// The contested name.
    pub fn mnemonic(&self) -> (r: &String)
        ensures
            r@ == self.mnemonic_spec(),
    {
        &self.mnemonic
    }

    /// The opcode that held the name.
    pub fn old_opcode(&self) -> (r: Opcode)
        ensures
            r == self.old_spec(),
    {
        self.old
    }

    /// The opcode that tried to claim it.
    pub fn new_opcode(&self) -> (r: Opcode)
        ensures
            r == self.new_spec(),
    {
        self.new
    }
}

/// The opcode a name maps to, if any.
pub open spec fn lookup_mnemonic(m: Seq<(Seq<char>, Opcode)>, name: Seq<char>) -> Option<Opcode>
    decreases m.len(),
{
    if m.len() == 0 {
        None
    } else if m[0].0 == name {
        Some(m[0].1)
    } else {
        lookup_mnemonic(m.drop_first(), name)
    }
}

/// A map from textual mnemonics to opcodes. Each name maps to exactly one
/// opcode; claiming a taken name for a different opcode fails.
#[derive(Debug)]
pub struct MnemonicMap {
    entries: Vec<(String, Opcode)>,
}

impl MnemonicMap {
    /// The name-to-opcode pairs, in insertion order.
    pub closed spec fn view(&self) -> Seq<(Seq<char>, Opcode)> {
        self.entries@.map_values(|p: (String, Opcode)| (p.0@, p.1))
    }

    /// No name appears twice.
    pub open spec fn wf(&self) -> bool {
        forall|i: int, j: int|
            0 <= i < j < self@.len() ==> (#[trigger] self@[i]).0 != (#[trigger] self@[j]).0
    }

    /// An empty map.
    pub fn new() -> (r: Self)
        ensures
            r.wf(),
            r@ == Seq::<(Seq<char>, Opcode)>::empty(),
    {
        let r = MnemonicMap { entries: Vec::new() };
        proof {
            assert(r@ =~= Seq::<(Seq<char>, Opcode)>::empty());
        }
        r
    }

    /// The opcode registered under `mnemonic`, if any.
    pub fn get(&self, mnemonic: &String) -> (r: Option<Opcode>)
        ensures
            r == lookup_mnemonic(self@, mnemonic@),
    {
        let n = self.entries.len();
        let mut i: usize = 0;
        while i < n
            invariant
                n == self@.len(),
                i <= n,
                forall|k: int| 0 <= k < i ==> (#[trigger] self@[k]).0 != mnemonic@,
            decreases n - i,
        {
            if self.entries[i].0 == *mnemonic {
                proof {
                    lemma_lookup_first(self@, mnemonic@, i as int);
                }
                return Some(self.entries[i].1);
            }
            i = i + 1;
        }
        proof {
            lemma_lookup_absent(self@, mnemonic@);
        }
        None
    }

    /// Claims `mnemonic` for `opcode`: fails only when a different opcode
    /// already holds the name; a repeated claim by the same opcode changes
    /// nothing.
    pub fn insert_owned(&mut self, opcode: Opcode, mnemonic: String) -> (r: Result<
        (),
        MnemonicError,
    >)
        requires
            old(self).wf(),
        ensures
            final(self).wf(),
            match lookup_mnemonic(old(self)@, mnemonic@) {
                None => r is Ok && final(self)@ == old(self)@.push((mnemonic@, opcode)),
                Some(prev) => {
                    if prev == opcode {
                        r is Ok && final(self)@ == old(self)@
                    } else {
                        &&& final(self)@ == old(self)@
                        &&& r matches Err(e)
                        &&& e.mnemonic_spec() == mnemonic@
                        &&& e.old_spec() == prev
                        &&& e.new_spec() == opcode
                    }
                },
            },
    {
        match self.get(&mnemonic) {
            Some(prev) => {
                if prev == opcode {
                    Ok(())
                } else {
                    Err(MnemonicError { mnemonic, old: prev, new: opcode })
                }
            },
            None => {
                proof {
                    lemma_lookup_absent_all(self@, mnemonic@);
                }
                self.entries.push((mnemonic, opcode));
                proof {
                    assert(self@ =~= old(self)@.push((self@[self@.len() - 1].0, opcode)));
                }
                Ok(())
            },
        }
    }

    /// Claims `mnemonic` for `opcode`.
    pub fn insert(&mut self, opcode: Opcode, mnemonic: &str) -> (r: Result<(), MnemonicError>)
        requires
            old(self).wf(),
        ensures
            final(self).wf(),
            match lookup_mnemonic(old(self)@, mnemonic@) {
                None => r is Ok && final(self)@ == old(self)@.push((mnemonic@, opcode)),
                Some(prev) => {
                    if prev == opcode {
                        r is Ok && final(self)@ == old(self)@
                    } else {
                        final(self)@ == old(self)@ && r is Err
                    }
                },
            },
    {
        self.insert_owned(opcode, mnemonic.to_owned())
    }

    /// Claims every name of `mnemonics` for `opcode`, stopping at the first
    /// conflict. On success each of the names looks up to `opcode`, and
    /// every name already resolvable keeps its opcode.
    pub fn insert_all(&mut self, opcode: Opcode, mnemonics: &[&str]) -> (r: Result<
        (),
        MnemonicError,
    >)
        requires
            old(self).wf(),
        ensures
            final(self).wf(),
            r is Ok ==> forall|k: int|
                0 <= k < mnemonics@.len() ==> lookup_mnemonic(
                    final(self)@,
                    #[trigger] mnemonics@[k]@,
                ) == Some(opcode),
            r is Ok ==> forall|name: Seq<char>|
                (#[trigger] lookup_mnemonic(old(self)@, name)) is Some ==> lookup_mnemonic(
                    final(self)@,
                    name,
                ) == lookup_mnemonic(old(self)@, name),
    {
        let n = mnemonics.len();
        let mut i: usize = 0;
        while i < n
            invariant
                self.wf(),
                i <= n,
                n == mnemonics@.len(),
                forall|k: int|
                    0 <= k < i ==> lookup_mnemonic(self@, #[trigger] mnemonics@[k]@) == Some(
                        opcode,
                    ),
                forall|name: Seq<char>|
                    (#[trigger] lookup_mnemonic(old(self)@, name)) is Some ==> lookup_mnemonic(
                        self@,
                        name,
                    ) == lookup_mnemonic(old(self)@, name),
            decreases n - i,
        {
            let m = mnemonics[i];
            let ghost pre = self@;
            match self.insert(opcode, m) {
                Ok(()) => {
                    proof {
                        lemma_insert_keeps_lookups(pre, self@, m@, opcode);
                    }
                },
                Err(e) => {
                    return Err(e);
                },
            }
            i = i + 1;
        }
        Ok(())
    }

    /// Claims every concatenation of a first part and a second part for
    /// `opcode`, stopping at the first conflict. On success each of the
    /// composed names looks up to `opcode`, and every name already
    /// resolvable keeps its opcode.
    pub fn insert_prod(&mut self, opcode: Opcode, first: &[&str], second: &[&str]) -> (r: Result<
        (),
        MnemonicError,
    >)
        requires
            old(self).wf(),
        ensures
            final(self).wf(),
            r is Ok ==> forall|i: int, k: int|
                0 <= i < first@.len() && 0 <= k < second@.len() ==> #[trigger] lookup_mnemonic(
                    final(self)@,
                    first@[i]@ + second@[k]@,
                ) == Some(opcode),
            r is Ok ==> forall|name: Seq<char>|
                (#[trigger] lookup_mnemonic(old(self)@, name)) is Some ==> lookup_mnemonic(
                    final(self)@,
                    name,
                ) == lookup_mnemonic(old(self)@, name),
    {
        let n1 = first.len();
        let mut i: usize = 0;
        while i < n1
            invariant
                self.wf(),
                i <= n1,
                n1 == first@.len(),
                forall|i2: int, k2: int|
                    0 <= i2 < i && 0 <= k2 < second@.len() ==> #[trigger] lookup_mnemonic(
                        self@,
                        first@[i2]@ + second@[k2]@,
                    ) == Some(opcode),
                forall|name: Seq<char>|
                    (#[trigger] lookup_mnemonic(old(self)@, name)) is Some ==> lookup_mnemonic(
                        self@,
                        name,
                    ) == lookup_mnemonic(old(self)@, name),
            decreases n1 - i,
        {
            let n2 = second.len();
            let mut j: usize = 0;
            while j < n2
                invariant
                    self.wf(),
                    j <= n2,
                    n2 == second@.len(),
                    i < n1,
                    n1 == first@.len(),
                    forall|i2: int, k2: int|
                        0 <= i2 < i && 0 <= k2 < n2 ==> #[trigger] lookup_mnemonic(
                            self@,
                            first@[i2]@ + second@[k2]@,
                        ) == Some(opcode),
                    forall|k2: int|
                        0 <= k2 < j ==> #[trigger] lookup_mnemonic(
                            self@,
                            first@[i as int]@ + second@[k2]@,
                        ) == Some(opcode),
                    forall|name: Seq<char>|
                        (#[trigger] lookup_mnemonic(old(self)@, name)) is Some
                            ==> lookup_mnemonic(self@, name) == lookup_mnemonic(
                            old(self)@,
                            name,
                        ),
                decreases n2 - j,
            {
                let name = first[i].to_owned().concat(second[j]);
                let ghost nv = name@;
                let ghost pre = self@;
                match self.insert_owned(opcode, name) {
                    Ok(()) => {
                        proof {
                            lemma_insert_keeps_lookups(pre, self@, nv, opcode);
                            assert(nv == first@[i as int]@ + second@[j as int]@);
                            assert forall|i2: int, k2: int|
                                0 <= i2 < i && 0 <= k2 < n2 implies #[trigger] lookup_mnemonic(
                                self@,
                                first@[i2]@ + second@[k2]@,
                            ) == Some(opcode) by {
                                assert(lookup_mnemonic(pre, first@[i2]@ + second@[k2]@)
                                    == Some(opcode));
                            }
                            assert forall|k2: int|
                                0 <= k2 < j + 1 implies #[trigger] lookup_mnemonic(
                                self@,
                                first@[i as int]@ + second@[k2]@,
                            ) == Some(opcode) by {
                                if k2 < j {
                                    assert(lookup_mnemonic(
                                        pre,
                                        first@[i as int]@ + second@[k2]@,
                                    ) == Some(opcode));
                                } else {
                                    assert(lookup_mnemonic(self@, nv) == Some(opcode));
                                }
                            }
                        }
                    },
                    Err(e) => {
                        return Err(e);
                    },
                }
                j = j + 1;
            }
            i = i + 1;
        }
        Ok(())
    }

    /// Every pair the map holds resolves to its own opcode: with no
    /// duplicate names, the first match is the only one.
    pub proof fn lemma_wf_lookup(&self)
        requires
            self.wf(),
        ensures
            forall|i: int|
                0 <= i < self@.len() ==> lookup_mnemonic(self@, (#[trigger] self@[i]).0)
                    == Some(self@[i].1),
    {
        assert forall|i: int| 0 <= i < self@.len() implies lookup_mnemonic(
            self@,
            (#[trigger] self@[i]).0,
        ) == Some(self@[i].1) by {
            lemma_lookup_first(self@, self@[i].0, i);
        }
    }
}

impl MnemonicMap {
    /// The permissive mnemonic table: every spelling of every opcode that
    /// any known assembler dialect uses. Each group below is claimed
    /// through `insert`, `insert_all` or `insert_prod`, whose contracts say
    /// that on success every claimed name resolves to its opcode and every
    /// earlier claim is kept; with the result well-formed, `lemma_wf_lookup`
    /// resolves any pair the table holds.
    pub fn with_permissive() -> (r: Result<MnemonicMap, MnemonicError>)
        ensures
            r matches Ok(m) ==> m.wf(),
    {
        let mut map = MnemonicMap::new();
        map.insert_all(
            Opcode::Push,
            &["push", "psh", "pus", "pushnumber", "pushnum", "pushchar", "pushch", "append",
                "<number>", "<char>"],
        )?;
        map.insert_all(
            Opcode::Dup,
            &["duplicate", "dupli", "dupl", "dup", "dupe", "doub", "^"],
        )?;
        map.insert_all(
            Opcode::Copy,
            &["copy", "copyn", "copynth", "copyat", "dupn", "dupnth", "dupat", "duplicaten",
                "duplicatenth", "duplicateat", "pick", "ref", "take", "pull", "^<number>"],
        )?;
        map.insert_all(
            Opcode::Swap,
            &["swap", "swp", "swa", "exchange", "exch", "xchg", "switch"],
        )?;
        map.insert_all(
            Opcode::Drop,
            &["drop", "discard", "disc", "dsc", "pop", "away", "delete", "del"],
        )?;
        map.insert_all(Opcode::Slide, &["slide", "slid", "sliden", "slideoff", "<unsigned>slide"])?;
        map.insert_all(Opcode::Add, &["add", "addition", "adding", "plus", "sum", "+"])?;
        map.insert_all(Opcode::Sub, &["subtract", "subt", "sub", "subtraction", "minus", "-"])?;
        map.insert_all(
            Opcode::Mul,
            &["multiply", "multi", "mult", "mul", "multiplication", "multiple", "times", "*"],
        )?;
        map.insert_all(
            Opcode::Div,
            &["divide", "div", "division", "integerdivision", "intdiv", "/"],
        )?;
        map.insert_all(
            Opcode::Mod,
            &["modulo", "mod", "remainder", "rem", "divisionpart", "%"],
        )?;
        map.insert_all(Opcode::Store, &["store", "stor", "sto", "st", "set", "put"])?;
        map.insert_all(
            Opcode::Retrieve,
            &["retrieve", "retrive", "retri", "retrv", "retr", "reti", "load", "lod", "ld",
                "fetch", "get", "recall", "rcl"],
        )?;
        map.insert_all(
            Opcode::Label,
            &["label", "lbl", "mark", "mrk", "marksub", "marklabel", "marklocation", "defun",
                "def", "deflabel", "part", "<label>:", "%<label>:", "@<label>", "<<label>>:",
                "L<number>:", "label_<number>:", "label_<number>"],
        )?;
        map.insert_all(
            Opcode::Call,
            &["call", "cll", "callsubroutine", "callsub", "calls", "cas", "jsr", "gosub",
                "subroutine"],
        )?;
        map.insert_all(
            Opcode::Jmp,
            &["jump", "jmp", "jm", "jp", "j", "branch", "br", "b", "goto"],
        )?;
        map.insert_prod(
            Opcode::Jz,
            &["jump", "jmp", "jm", "jp", "j", "branch", "br", "b", "goto"],
            &["zero", "zer", "ze", "z", "null", "nil", "ez", "0"],
        )?;
        map.insert_prod(
            Opcode::Jz,
            &["jump", "jmp", "branch", "goto"],
            &["ifzero", "if0", "iz"],
        )?;
        map.insert(Opcode::Jz, "zero")?;
        map.insert_prod(
            Opcode::Jn,
            &["jump", "jmp", "jm", "jp", "j", "branch", "br", "b", "goto"],
            &["negative", "nega", "neg", "ne", "n", "ltz", "lz", "l0"],
        )?;
        map.insert_prod(
            Opcode::Jn,
            &["jump", "jmp", "branch", "goto"],
            &["ifnegative", "ifneg", "ifn", "in"],
        )?;
        map.insert(Opcode::Jn, "negative")?;
        map.insert_all(
            Opcode::Ret,
            &["return", "ret", "rts", "endsubroutine", "endsub", "ends", "ens", "subroutineend",
                "subend", "endfunction", "endfunc", "exitsub", "controlback", "back", "leave"],
        )?;
        map.insert_all(
            Opcode::End,
            &["endprogram", "endprog", "endp", "end", "exit", "halt", "hlt", "terminate", "quit",
                "die", "finishprogram", "finish"],
        )?;
        map.insert_prod(
            Opcode::Printc,
            &["print", "output", "out", "write"],
            &["character", "char", "chr", "ch", "c"],
        )?;
        map.insert_prod(Opcode::Printc, &["put", "p", "o", "w"], &["char", "chr", "ch", "c"])?;
        map.insert_prod(Opcode::Printc, &["prt", "ot", "wr", "wt"], &["chr", "ch", "c"])?;
        map.insert_prod(Opcode::Printc, &["char", "chr", "ch", "c"], &["out"])?;
        map.insert_prod(
            Opcode::Printi,
            &["print", "output", "out", "write"],
            &["integer", "int", "i", "number", "num", "n"],
        )?;
        map.insert_prod(
            Opcode::Printi,
            &["put", "prt", "p", "o", "w"],
            &["int", "i", "num", "n"],
        )?;
        map.insert_prod(Opcode::Printi, &["ot", "wr", "wt"], &["i", "n"])?;
        map.insert_prod(Opcode::Printi, &["int", "i", "num", "n"], &["out"])?;
        map.insert_prod(
            Opcode::Readc,
            &["read", "input", "get"],
            &["character", "char", "chr", "ch", "c"],
        )?;
        map.insert_prod(Opcode::Readc, &["in", "r", "i"], &["char", "chr", "ch", "c"])?;
        map.insert_prod(Opcode::Readc, &["red", "re", "rd", "inp"], &["chr", "ch", "c"])?;
        map.insert_prod(Opcode::Readc, &["char", "chr", "ch", "c"], &["in"])?;
        map.insert_prod(
            Opcode::Readi,
            &["read", "input", "get"],
            &["integer", "int", "i", "number", "num", "n"],
        )?;
        map.insert_prod(
            Opcode::Readi,
            &["red", "re", "rd", "r", "inp", "in"],
            &["int", "i", "num", "n"],
        )?;
        map.insert_prod(Opcode::Readi, &["i"], &["int", "i", "num"])?;
        map.insert_prod(Opcode::Readi, &["int", "i", "num", "n"], &["in"])?;
        map.insert_all(Opcode::Shuffle, &["shuffle", "permr"])?;
        map.insert_all(Opcode::DumpStack, &["dumpstack", "debugprintstack"])?;
        map.insert_all(Opcode::DumpHeap, &["dumpheap", "debugprintheap"])?;
        map.insert_all(Opcode::DumpTrace, &["dumptrace", "trace"])?;
        Ok(map)
    }
}

/// After a successful claim of `name` for `op`, `name` resolves to `op`
/// and every name that already resolved keeps its opcode.
proof fn lemma_insert_keeps_lookups(
    pre: Seq<(Seq<char>, Opcode)>,
    post: Seq<(Seq<char>, Opcode)>,
    name: Seq<char>,
    op: Opcode,
)
    requires
        match lookup_mnemonic(pre, name) {
            None => post == pre.push((name, op)),
            Some(prev) => prev == op && post == pre,
        },
    ensures
        lookup_mnemonic(post, name) == Some(op),
        forall|n2: Seq<char>|
            (#[trigger] lookup_mnemonic(pre, n2)) is Some ==> lookup_mnemonic(post, n2)
                == lookup_mnemonic(pre, n2),
{
    match lookup_mnemonic(pre, name) {
        None => {
            lemma_lookup_push(pre, (name, op), name);
            assert forall|n2: Seq<char>| (#[trigger] lookup_mnemonic(pre, n2)) is Some
                implies lookup_mnemonic(post, n2) == lookup_mnemonic(pre, n2) by {
                lemma_lookup_push(pre, (name, op), n2);
            }
        },
        Some(_) => {},
    }
}

/// Appending an entry changes no resolvable name, and resolves a fresh
/// name to the appended opcode.
proof fn lemma_lookup_push(m: Seq<(Seq<char>, Opcode)>, p: (Seq<char>, Opcode), x: Seq<char>)
    ensures
        lookup_mnemonic(m, x) is Some ==> lookup_mnemonic(m.push(p), x) == lookup_mnemonic(
            m,
            x,
        ),
        lookup_mnemonic(m, x) is None && p.0 == x ==> lookup_mnemonic(m.push(p), x) == Some(
            p.1,
        ),
        lookup_mnemonic(m, x) is None && p.0 != x ==> lookup_mnemonic(m.push(p), x) is None,
    decreases m.len(),
{
    if m.len() == 0 {
        assert(m.push(p)[0] == p);
        if p.0 != x {
            assert(m.push(p).drop_first() =~= Seq::<(Seq<char>, Opcode)>::empty());
        }
    } else {
        if m[0].0 != x {
            assert(m.push(p).drop_first() =~= m.drop_first().push(p));
            lemma_lookup_push(m.drop_first(), p, x);
        }
    }
}

/// The name at the first matching index is the one found.
proof fn lemma_lookup_first(m: Seq<(Seq<char>, Opcode)>, name: Seq<char>, i: int)
    requires
        0 <= i < m.len(),
        m[i].0 == name,
        forall|k: int| 0 <= k < i ==> (#[trigger] m[k]).0 != name,
    ensures
        lookup_mnemonic(m, name) == Some(m[i].1),
    decreases i,
{
    if i > 0 {
        assert(m.drop_first()[i - 1] == m[i]);
        assert forall|k: int| 0 <= k < i - 1 implies (#[trigger] m.drop_first()[k]).0 != name by {
            assert(m.drop_first()[k] == m[k + 1]);
        }
        lemma_lookup_first(m.drop_first(), name, i - 1);
    }
}

/// A name held by no entry is not found.
proof fn lemma_lookup_absent(m: Seq<(Seq<char>, Opcode)>, name: Seq<char>)
    requires
        forall|k: int| 0 <= k < m.len() ==> (#[trigger] m[k]).0 != name,
    ensures
        lookup_mnemonic(m, name) is None,
    decreases m.len(),
{
    if m.len() > 0 {
        assert forall|k: int| 0 <= k < m.drop_first().len() implies (#[trigger] m.drop_first()[
            k
        ]).0 != name by {
            assert(m.drop_first()[k] == m[k + 1]);
        }
        lemma_lookup_absent(m.drop_first(), name);
    }
}

/// A name that is not found is held by no entry.
proof fn lemma_lookup_absent_all(m: Seq<(Seq<char>, Opcode)>, name: Seq<char>)
    requires
        lookup_mnemonic(m, name) is None,
    ensures
        forall|k: int| 0 <= k < m.len() ==> (#[trigger] m[k]).0 != name,
    decreases m.len(),
{
    if m.len() > 0 {
        lemma_lookup_absent_all(m.drop_first(), name);
        assert forall|k: int| 0 <= k < m.len() implies (#[trigger] m[k]).0 != name by {
            if k > 0 {
                assert(m.drop_first()[k - 1] == m[k]);
            }
        }
    }
}

} // verus!
