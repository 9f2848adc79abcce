use vstd::prelude::*;

verus! {

/// Classification of a cord in the quipu hierarchy.
#[derive(Debug, Clone, Copy, PartialEq, Eq, Structural)]
pub enum CordType {
    Primary,
    Secondary,
    Tertiary,
    Auxiliary,
}

impl CordType {
    /// The depth of a cord of this type: Primary is 1, Secondary 2, Tertiary 3, Auxiliary 4.
    pub open spec fn spec_depth(self) -> u32 {
        match self {
            CordType::Primary => 1,
            CordType::Secondary => 2,
            CordType::Tertiary => 3,
            CordType::Auxiliary => 4,
        }
    }

    /// Numerical depth: Primary=1, Secondary=2, etc.
    pub fn depth(&self) -> (d: u32)
        ensures
            d == self.spec_depth(),
            1 <= d <= 4,
    {
        match self {
            CordType::Primary => 1,
            CordType::Secondary => 2,
            CordType::Tertiary => 3,
            CordType::Auxiliary => 4,
        }
    }
}

} // verus!
