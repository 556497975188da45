use vstd::prelude::*;

verus! {

/// The sign of a decoded integer argument.
#[derive(Clone, Copy, Debug, PartialEq, Eq, Hash, Structural)]
pub enum Sign {
    Pos,
    Neg,
    /// The empty bit vector: no sign and no magnitude, distinct from zero.
    Empty,
}

/// A sign-magnitude integer argument, kept in its wire form: the first bit
/// (if any) is the sign, the rest is the magnitude, big-endian, with
/// leading zeros significant for display round-tripping.
#[derive(Clone, Debug, PartialEq, Eq, Hash)]
pub struct Int {
    bits: Vec<bool>,
}

/// The sign a bit vector denotes.
pub open spec fn sign_of_bits(bits: Seq<bool>) -> Sign {
    if bits.len() == 0 {
        Sign::Empty
    } else if bits[0] {
        Sign::Neg
    } else {
        Sign::Pos
    }
}

impl Int {
    pub closed spec fn bits_spec(&self) -> Seq<bool> {
        self.bits@
    }

    /// Wraps decoded argument bits unchanged.
    pub fn from_bits(bits: Vec<bool>) -> (r: Self)
        ensures
            r.bits_spec() == bits@,
    {
        Int { bits }
    }

    /// The raw bits: sign first, then the big-endian magnitude.
    pub fn bits(&self) -> (r: &Vec<bool>)
        ensures
            r@ == self.bits_spec(),
    {
        &self.bits
    }

    pub fn sign(&self) -> (r: Sign)
        ensures
            r == sign_of_bits(self.bits_spec()),
    {
        if self.bits.len() == 0 {
            Sign::Empty
        } else if self.bits[0] {
            Sign::Neg
        } else {
            Sign::Pos
        }
    }
}

} // verus!
