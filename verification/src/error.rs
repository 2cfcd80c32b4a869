//! The library's error type.

use vstd::prelude::*;
use vstd::string::StringExecFns;

verus! {

/// What can go wrong while running the agent pipeline.
#[derive(Debug, Clone, PartialEq, Eq)]
pub enum AgentError {
    Internal(String),
    ExecutionFailed(String),
    InvalidStage(String),
}

/// The text of `e` as it is shown to people.
pub open spec fn error_text(e: AgentError) -> Seq<char> {
    match e {
        AgentError::Internal(m) => "internal error: "@ + m@,
        AgentError::ExecutionFailed(m) => "execution failed: "@ + m@,
        AgentError::InvalidStage(m) => "invalid stage transition: "@ + m@,
    }
}

impl AgentError {
    /// The human-readable text of the error.
    pub fn message(&self) -> (text: String)
        ensures
            text@ == error_text(*self),
    {
        match self {
            AgentError::Internal(m) => {
                let mut t = "internal error: ".to_string();
                t.append(m.as_str());
                t
            },
            AgentError::ExecutionFailed(m) => {
                let mut t = "execution failed: ".to_string();
                t.append(m.as_str());
                t
            },
            AgentError::InvalidStage(m) => {
                let mut t = "invalid stage transition: ".to_string();
                t.append(m.as_str());
                t
            },
        }
    }
}

} // verus!
