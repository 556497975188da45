//! The eight-instruction tape language that two of the decoded dialects
//! are isomorphic to, and its debug extension.

pub mod ook;
pub mod spoon;

use crate::syntax::variant::VariantIndex;
use vstd::prelude::*;

verus! {

/// The eight standard instructions.
#[derive(Clone, Copy, Debug, PartialEq, Eq, PartialOrd, Ord, Hash, Structural)]
pub enum Inst {
    /// `>`
    Right,
    /// `<`
    Left,
    /// `+`
    Inc,
    /// `-`
    Dec,
    /// `.`
    Output,
    /// `,`
    Input,
    /// `[`
    Head,
    /// `]`
    Tail,
}

/// The standard instructions plus the debug extension.
#[derive(Clone, Copy, Debug, PartialEq, Eq, PartialOrd, Ord, Hash, Structural)]
pub enum InstExt {
    /// Standard instructions.
    Bf(Inst),
    /// `#`, a debugging instruction some interpreters accept.
    Debug,
}

impl VariantIndex for Inst {
    open spec fn count_spec() -> u32 {
        8
    }

    open spec fn index_spec(&self) -> u32 {
        match *self {
            Inst::Right => 0,
            Inst::Left => 1,
            Inst::Inc => 2,
            Inst::Dec => 3,
            Inst::Output => 4,
            Inst::Input => 5,
            Inst::Head => 6,
            Inst::Tail => 7,
        }
    }

    open spec fn variant_spec(index: u32) -> Inst {
        if index == 0 {
            Inst::Right
        } else if index == 1 {
            Inst::Left
        } else if index == 2 {
            Inst::Inc
        } else if index == 3 {
            Inst::Dec
        } else if index == 4 {
            Inst::Output
        } else if index == 5 {
            Inst::Input
        } else if index == 6 {
            Inst::Head
        } else {
            Inst::Tail
        }
    }

    fn count() -> (r: u32)
        ensures
            r == Self::count_spec(),
    {
        8
    }

    fn variant(index: u32) -> (r: Inst)
        ensures
            r == Self::variant_spec(index),
    {
        if index == 0 {
            Inst::Right
        } else if index == 1 {
            Inst::Left
        } else if index == 2 {
            Inst::Inc
        } else if index == 3 {
            Inst::Dec
        } else if index == 4 {
            Inst::Output
        } else if index == 5 {
            Inst::Input
        } else if index == 6 {
            Inst::Head
        } else {
            Inst::Tail
        }
    }

    fn index(&self) -> (r: u32)
        ensures
            r == self.index_spec(),
            r < Self::count_spec(),
    {
        match *self {
            Inst::Right => 0,
            Inst::Left => 1,
            Inst::Inc => 2,
            Inst::Dec => 3,
            Inst::Output => 4,
            Inst::Input => 5,
            Inst::Head => 6,
            Inst::Tail => 7,
        }
    }

    proof fn lemma_index_valid(&self)
        ensures
            self.index_spec() < Self::count_spec(),
            Self::variant_spec(self.index_spec()) == *self,
    {
    }
}

impl VariantIndex for InstExt {
    open spec fn count_spec() -> u32 {
        9
    }

    open spec fn index_spec(&self) -> u32 {
        match *self {
            InstExt::Bf(i) => i.index_spec(),
            InstExt::Debug => 8,
        }
    }

    open spec fn variant_spec(index: u32) -> InstExt {
        if index < 8 {
            InstExt::Bf(Inst::variant_spec(index))
        } else {
            InstExt::Debug
        }
    }

    fn count() -> (r: u32)
        ensures
            r == Self::count_spec(),
    {
        9
    }

    fn variant(index: u32) -> (r: InstExt)
        ensures
            r == Self::variant_spec(index),
    {
        if index < 8 {
            InstExt::Bf(Inst::variant(index))
        } else {
            InstExt::Debug
        }
    }

    fn index(&self) -> (r: u32)
        ensures
            r == self.index_spec(),
            r < Self::count_spec(),
    {
        match *self {
            InstExt::Bf(i) => i.index(),
            InstExt::Debug => 8,
        }
    }

    proof fn lemma_index_valid(&self)
        ensures
            self.index_spec() < Self::count_spec(),
            Self::variant_spec(self.index_spec()) == *self,
    {
        match *self {
            InstExt::Bf(i) => {
                i.lemma_index_valid();
            },
            InstExt::Debug => {},
        }
    }
}

} // verus!
