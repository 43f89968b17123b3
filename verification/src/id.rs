use vstd::prelude::*;

verus! {

/// A 256-bit identifier, held as four 64-bit words with `w0` the most
/// significant. Equality is bitwise; the order is the bitwise
/// (lexicographic) order on the words.
#[derive(Clone, Copy, PartialEq, Eq, Structural, Debug)]
pub struct Id {
    pub w0: u64,
    pub w1: u64,
    pub w2: u64,
    pub w3: u64,
}

impl Id {
    /// `self` sorts at or before `other` in the bitwise order.
    pub open spec fn spec_le(self, other: Id) -> bool {
        ||| self.w0 < other.w0
        ||| (self.w0 == other.w0 && self.w1 < other.w1)
        ||| (self.w0 == other.w0 && self.w1 == other.w1 && self.w2 < other.w2)
        ||| (self.w0 == other.w0 && self.w1 == other.w1 && self.w2 == other.w2
            && self.w3 <= other.w3)
    }

    pub fn le(&self, other: &Id) -> (r: bool)
        ensures
            r == self.spec_le(*other),
    {
        if self.w0 != other.w0 {
            self.w0 < other.w0
        } else if self.w1 != other.w1 {
            self.w1 < other.w1
        } else if self.w2 != other.w2 {
            self.w2 < other.w2
        } else {
            self.w3 <= other.w3
        }
    }
}

} // verus!
