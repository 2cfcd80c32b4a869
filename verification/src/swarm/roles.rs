use vstd::prelude::*;

verus! {

/// The specialities an agent can take on in the swarm.
#[derive(Debug, Clone, Copy, PartialEq, Eq, Structural)]
pub enum AgentRole {
    Architect,
    Coordinator,
    Documentation,
    Reviewer,
    BackendCoder,
    FrontendCoder,
    DatabaseEngineer,
    DevOps,
    Tester,
    Security,
}

} // verus!
