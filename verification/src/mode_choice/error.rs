//! Error types for the mode choice step.
use vstd::prelude::*;
use vstd::string::StringExecFns;

verus! {

/// Mode choice errors.
#[derive(Debug, Clone)]
pub enum ModeChoiceError {
    /// No utility functions defined.
    NoModes,
    /// Missing skim data for a mode.
    MissingSkim(String),
}

/// The message of a mode choice error.
pub open spec fn mode_choice_error_text(e: ModeChoiceError) -> Seq<char> {
    match e {
        ModeChoiceError::NoModes => "no mode utilities defined"@,
        ModeChoiceError::MissingSkim(mode) => "missing skim data for mode: "@ + mode@,
    }
}

impl ModeChoiceError {
    /// The message of the error, e.g. `"no mode utilities defined"`.
    pub fn to_string(&self) -> (s: String)
        ensures
            s@ == mode_choice_error_text(*self),
    {
        match self {
            ModeChoiceError::NoModes => "no mode utilities defined".to_string(),
            ModeChoiceError::MissingSkim(mode) => {
                let mut s = "missing skim data for mode: ".to_string();
                s.append(mode.as_str());
                s
            },
        }
    }
}

} // verus!
