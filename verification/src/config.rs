//! Model configuration choices that the library decides on.
use vstd::prelude::*;

verus! {

/// Traffic assignment algorithm selection.
#[derive(Debug, Clone, Copy, PartialEq, Eq, Structural)]
pub enum AssignmentMethodType {
    FrankWolfe,
    Msa,
    GradientProjection,
}

/// The snake-case name of an assignment method.
pub open spec fn method_name(m: AssignmentMethodType) -> Seq<char> {
    match m {
        AssignmentMethodType::FrankWolfe => "frank_wolfe"@,
        AssignmentMethodType::Msa => "msa"@,
        AssignmentMethodType::GradientProjection => "gradient_projection"@,
    }
}

impl AssignmentMethodType {
    /// The snake-case name of the method, e.g. `"frank_wolfe"`.
    pub fn to_string(&self) -> (s: String)
        ensures
            s@ == method_name(*self),
    {
        let name: &str = match self {
            AssignmentMethodType::FrankWolfe => "frank_wolfe",
            AssignmentMethodType::Msa => "msa",
            AssignmentMethodType::GradientProjection => "gradient_projection",
        };
        name.to_string()
    }
}

/// Different assignment methods have different names.
pub proof fn law_method_names_distinct(a: AssignmentMethodType, b: AssignmentMethodType)
    ensures
        method_name(a) == method_name(b) <==> a == b,
{
    reveal_strlit("frank_wolfe");
    reveal_strlit("msa");
    reveal_strlit("gradient_projection");
    if method_name(a) == method_name(b) {
        assert(method_name(a).len() == method_name(b).len());
        assert(method_name(a)[0] == method_name(b)[0]);
    }
}

} // verus!
