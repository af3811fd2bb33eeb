//! The two stone colours and the opposite-colour operation.

use vstd::prelude::*;

verus! {

/// A stone colour: Black or White, nothing else.
#[derive(Debug, Copy, Clone, Hash, Eq, PartialEq, Structural)]
pub enum Stone {
    Black,
    White,
}

/// The opposite colour: Black and White exchange.
pub open spec fn opp(s: Stone) -> Stone {
    match s {
        Stone::Black => Stone::White,
        Stone::White => Stone::Black,
    }
}

impl Stone {
    /// Toggle the colour.
    pub fn not(self) -> (r: Stone)
        ensures
            r == opp(self),
    {
        match self {
            Stone::Black => Stone::White,
            Stone::White => Stone::Black,
        }
    }
}

/// Toggling twice gives the colour back.
pub proof fn lemma_opp_involution(s: Stone)
    ensures
        opp(opp(s)) == s,
{
}

} // verus!
