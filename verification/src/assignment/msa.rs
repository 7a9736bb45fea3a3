//! The method of successive averages: a stateless selector whose
//! algorithm runs on the indexed graph.
use vstd::prelude::*;

verus! {

/// Method of Successive Averages traffic assignment.
#[derive(Debug, Clone, Copy, PartialEq, Eq, Structural)]
pub struct Msa;

impl Msa {
    /// Create a new MSA assignment instance.
    pub fn new() -> (r: Self)
        ensures
            r == Msa,
    {
        Msa
    }
}

impl Default for Msa {
    fn default() -> (r: Self)
        ensures
            r == Msa,
    {
        Self::new()
    }
}

} // verus!
