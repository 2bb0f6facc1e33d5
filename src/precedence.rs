use vstd::prelude::*;

verus! {

/// Eight standard precedence levels, from the most served (`P0`) to the
/// least served (`P7`).
#[derive(Debug, Clone, Copy, PartialEq, Eq, Hash, PartialOrd, Ord)]
pub enum IpPrecedence {
    P0,
    P1,
    P2,
    P3,
    P4,
    P5,
    P6,
    P7,
}

impl IpPrecedence {
    /// The fixed weight of each level.
    pub open spec fn spec_weight(self) -> u64 {
        match self {
            IpPrecedence::P0 => 32768,
            IpPrecedence::P1 => 16384,
            IpPrecedence::P2 => 10920,
            IpPrecedence::P3 => 8192,
            IpPrecedence::P4 => 6552,
            IpPrecedence::P5 => 5456,
            IpPrecedence::P6 => 4680,
            IpPrecedence::P7 => 4096,
        }
    }

    pub fn weight(self) -> (r: u64)
        ensures
            r == self.spec_weight(),
            r >= 1,
    {
        match self {
            IpPrecedence::P0 => 32768,
            IpPrecedence::P1 => 16384,
            IpPrecedence::P2 => 10920,
            IpPrecedence::P3 => 8192,
            IpPrecedence::P4 => 6552,
            IpPrecedence::P5 => 5456,
            IpPrecedence::P6 => 4680,
            IpPrecedence::P7 => 4096,
        }
    }
}

} // verus!
