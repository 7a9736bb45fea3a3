//! Top-level error type that aggregates the domain errors of the library.
use vstd::prelude::*;
use vstd::string::StringExecFns;

use crate::gmns::error::{graph_error_text, GraphError};
use crate::mode_choice::error::{mode_choice_error_text, ModeChoiceError};
use crate::pipeline::error::{pipeline_error_text, PipelineError};

verus! {

/// Top-level error type for the traffic model.
#[derive(Debug, Clone)]
pub enum SimError {
    /// Graph-related errors (nodes, links, zones).
    Graph(GraphError),
    /// Mode choice errors (step 3).
    ModeChoice(ModeChoiceError),
    /// Pipeline orchestration errors.
    Pipeline(PipelineError),
}

/// The message of an error, prefixed with the step it comes from.
pub open spec fn sim_error_text(e: SimError) -> Seq<char> {
    match e {
        SimError::Graph(g) => "graph error: "@ + graph_error_text(g),
        SimError::ModeChoice(m) => "mode choice error: "@ + mode_choice_error_text(m),
        SimError::Pipeline(p) => "pipeline error: "@ + pipeline_error_text(p),
    }
}

impl SimError {
    /// The message of the error, e.g. `"graph error: node not found: 99"`.
    pub fn to_string(&self) -> (s: String)
        ensures
            s@ == sim_error_text(*self),
    {
        let (prefix, inner): (&str, String) = match self {
            SimError::Graph(g) => ("graph error: ", g.to_string()),
            SimError::ModeChoice(m) => ("mode choice error: ", m.to_string()),
            SimError::Pipeline(p) => ("pipeline error: ", p.to_string()),
        };
        let mut s = prefix.to_string();
        s.append(inner.as_str());
        s
    }
}

impl From<GraphError> for SimError {
    fn from(e: GraphError) -> SimError {
        SimError::Graph(e)
    }
}

impl vstd::std_specs::convert::FromSpecImpl<GraphError> for SimError {
    open spec fn obeys_from_spec() -> bool {
        true
    }

    open spec fn from_spec(v: GraphError) -> SimError {
        SimError::Graph(v)
    }
}

impl From<ModeChoiceError> for SimError {
    fn from(e: ModeChoiceError) -> SimError {
        SimError::ModeChoice(e)
    }
}

impl vstd::std_specs::convert::FromSpecImpl<ModeChoiceError> for SimError {
    open spec fn obeys_from_spec() -> bool {
        true
    }

    open spec fn from_spec(v: ModeChoiceError) -> SimError {
        SimError::ModeChoice(v)
    }
}

impl From<PipelineError> for SimError {
    fn from(e: PipelineError) -> SimError {
        SimError::Pipeline(e)
    }
}

impl vstd::std_specs::convert::FromSpecImpl<PipelineError> for SimError {
    open spec fn obeys_from_spec() -> bool {
        true
    }

    open spec fn from_spec(v: PipelineError) -> SimError {
        SimError::Pipeline(v)
    }
}

} // verus!
