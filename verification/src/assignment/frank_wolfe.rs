//! The Frank-Wolfe assignment method: a stateless selector whose
//! algorithm runs on the indexed graph.
use vstd::prelude::*;

verus! {

/// Frank-Wolfe (convex combinations) traffic assignment.
#[derive(Debug, Clone, Copy, PartialEq, Eq, Structural)]
pub struct FrankWolfe;

impl FrankWolfe {
    /// Create a new Frank-Wolfe assignment instance.
    pub fn new() -> (r: Self)
        ensures
            r == FrankWolfe,
    {
        FrankWolfe
    }
}

impl Default for FrankWolfe {
    fn default() -> (r: Self)
        ensures
            r == FrankWolfe,
    {
        Self::new()
    }
}

} // verus!
