use cc_agent::agent::{AgentOptions, SmartAgent};
use cc_agent::error::AgentError;
use cc_agent::swarm::closed_loop::{ProjectRun, RunAction, RunEvent};
use cc_agent::swarm::decomposer::TaskDecomposer;
use cc_agent::swarm::evolution::{practice_memory_key, EvolutionEngine, PRACTICE_SEARCH_LIMIT};
use cc_agent::swarm::pipeline::{PipelineStage, ProjectArtifacts};
use cc_agent::tools::mcp::read_file_result;

#[test]
fn a_run_publishes_its_stages_in_order_and_succeeds() {
    let (mut run, mut action) = ProjectRun::start(77, TaskDecomposer::new(SmartAgent), "a todo app");
    let mut published = Vec::new();
    let result = loop {
        let event = match action {
            RunAction::Publish(stage) => {
                published.push(stage);
                RunEvent::StagePublished
            }
            RunAction::ReadArtifacts => RunEvent::ArtifactsRead(ProjectArtifacts {
                files: vec!["README.md".to_string()],
                reports: vec![],
            }),
            RunAction::Summarize => {
                assert!(run.summary_input().is_some());
                RunEvent::Summarized(Ok(()))
            }
            RunAction::Finish(res) => break res,
        };
        assert!(run.accepts(&event));
        let (next, next_action) = run.step(event);
        run = next;
        action = next_action;
    };
    assert_eq!(
        published,
        vec![PipelineStage::Analyze, PipelineStage::Decompose, PipelineStage::Summarize, PipelineStage::Done]
    );
    let r = result.unwrap();
    assert_eq!(r.project_id, 77);
    assert!(r.success);
    assert_eq!(r.final_stage, PipelineStage::Done);
    assert_eq!(r.stages_completed, vec![PipelineStage::Analyze, PipelineStage::Decompose]);
    assert_eq!(r.total_tasks, 0);
    assert_eq!(r.artifacts.files, vec!["README.md".to_string()]);
    assert!(r.error_summary.is_none());
}

#[test]
fn a_failed_summary_ends_the_run_with_its_error() {
    let (mut run, mut action) = ProjectRun::start(1, TaskDecomposer::new(SmartAgent), "x");
    let mut published = Vec::new();
    let result = loop {
        let event = match action {
            RunAction::Publish(stage) => {
                published.push(stage);
                RunEvent::StagePublished
            }
            RunAction::ReadArtifacts => RunEvent::ArtifactsRead(ProjectArtifacts::default()),
            RunAction::Summarize => {
                assert!(!run.accepts(&RunEvent::StagePublished));
                RunEvent::Summarized(Err(AgentError::Internal("memory down".to_string())))
            }
            RunAction::Finish(res) => break res,
        };
        assert!(run.accepts(&event));
        let (next, next_action) = run.step(event);
        run = next;
        action = next_action;
    };
    assert_eq!(published, vec![PipelineStage::Analyze, PipelineStage::Decompose, PipelineStage::Summarize]);
    match result {
        Err(AgentError::Internal(m)) => assert_eq!(m, "memory down"),
        _ => panic!("the summary error was expected"),
    }
    assert_eq!(run.project_id, 1);
    assert!(!run.accepts(&RunEvent::StagePublished));
}

#[test]
fn error_messages() {
    assert_eq!(AgentError::Internal("x".to_string()).message(), "internal error: x");
    assert_eq!(AgentError::ExecutionFailed("y".to_string()).message(), "execution failed: y");
    assert_eq!(AgentError::InvalidStage("z".to_string()).message(), "invalid stage transition: z");
}

#[test]
fn agent_echoes_the_prompt() {
    let r = SmartAgent.execute("hello", AgentOptions::default()).unwrap();
    assert_eq!(r.output, "hello");
}

#[test]
fn practices_are_stored_under_a_prefixed_key() {
    assert_eq!(practice_memory_key("bp-1-0"), "best_practice:bp-1-0");
    assert_eq!(PRACTICE_SEARCH_LIMIT, 10);
    let e = EvolutionEngine::new(SmartAgent, 5u8);
    assert_eq!(*e.memory_store(), 5);
}

#[test]
fn file_reads_need_a_text_answer() {
    assert_eq!(read_file_result(Ok(Some("body".to_string()))), Ok("body".to_string()));
    assert_eq!(read_file_result(Ok(None)), Err("Invalid response".to_string()));
    assert_eq!(read_file_result(Err("timeout".to_string())), Err("timeout".to_string()));
}
