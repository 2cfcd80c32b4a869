//! The agent that carries out prompts.

use vstd::prelude::*;

use crate::error::AgentError;

verus! {

/// Options for one agent call.
#[derive(Debug, Clone, Copy, PartialEq, Eq)]
pub struct AgentOptions;

/// What the agent answered.
#[derive(Debug, Clone)]
pub struct AgentResponse {
    pub output: String,
}

/// The agent that the pipeline components share.
#[derive(Debug, Clone, Copy, PartialEq, Eq)]
pub struct SmartAgent;

impl Default for AgentOptions {
    fn default() -> (o: AgentOptions)
        ensures
            o == AgentOptions,
    {
        AgentOptions
    }
}

impl Default for SmartAgent {
    fn default() -> (a: SmartAgent)
        ensures
            a == SmartAgent,
    {
        SmartAgent
    }
}

impl SmartAgent {
    /// Runs a prompt; the answer echoes the prompt.
    pub fn execute(&self, prompt: &str, options: AgentOptions) -> (res: Result<AgentResponse, AgentError>)
        ensures
            res matches Ok(r) && r.output@ == prompt@,
    {
        Ok(AgentResponse { output: prompt.to_string() })
    }
}

} // verus!
