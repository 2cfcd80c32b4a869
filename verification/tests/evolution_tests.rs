use cc_agent::agent::SmartAgent;
use cc_agent::error::AgentError;
use cc_agent::swarm::evolution::{
    best_practices, decimal_text, join_texts, practices_for, EvolutionEngine, PatternText, PracticeCategory, SaveCommand,
    SaveRun,
};
use cc_agent::swarm::pipeline::{PipelineResult, PipelineStage, ProjectArtifacts};

fn pattern(id: &str, scenarios: &[&str]) -> PatternText {
    PatternText {
        pattern_id: id.to_string(),
        problem_signature: format!("sig {}", id),
        solution_template: format!("use {}", id),
        applicable_scenarios: scenarios.iter().map(|s| s.to_string()).collect(),
    }
}

#[test]
fn numbers_are_written_in_decimal() {
    assert_eq!(decimal_text(0), "0");
    assert_eq!(decimal_text(7), "7");
    assert_eq!(decimal_text(10), "10");
    assert_eq!(decimal_text(305), "305");
    assert_eq!(decimal_text(usize::MAX), usize::MAX.to_string());
}

#[test]
fn texts_are_joined_with_the_separator() {
    assert_eq!(join_texts(&vec![], ", "), "");
    assert_eq!(join_texts(&vec!["web".to_string()], ", "), "web");
    assert_eq!(join_texts(&vec!["web".to_string(), "cli".to_string(), "api".to_string()], ", "), "web, cli, api");
}

#[test]
fn one_practice_per_pattern() {
    let patterns = vec![pattern("cache", &["web", "api"]), pattern("retry", &[])];
    let out = practices_for(&patterns, "p1", "2024-01-01T00:00:00+00:00");
    assert_eq!(out.len(), 2);
    assert_eq!(out[0].id, "bp-p1-0");
    assert_eq!(out[1].id, "bp-p1-1");
    assert_eq!(out[0].title, "成功模式：cache");
    assert_eq!(out[0].description, "use cache");
    assert_eq!(out[0].solution, "use cache");
    assert_eq!(out[0].context, "web, api");
    assert_eq!(out[1].context, "");
    assert_eq!(out[0].category, PracticeCategory::Tooling);
    assert_eq!(out[0].tags, vec!["success".to_string()]);
    assert!(out[0].code_example.is_none());
    assert_eq!(out[0].usage_count, 0);
    assert_eq!(out[1].created_at, "2024-01-01T00:00:00+00:00");
}

#[test]
fn practice_ids_carry_the_project_uuid() {
    let project: u128 = 0x0123_4567_89ab_4def_8123_4567_89ab_cdef;
    let out = best_practices(&vec![pattern("cache", &[])], project, "t");
    assert_eq!(out[0].id, "bp-01234567-89ab-4def-8123-456789abcdef-0");
    assert_eq!(out[0].id, format!("bp-{}-0", uuid::Uuid::from_u128(project)));
}

#[test]
fn practices_of_a_run_share_one_timestamp() {
    let engine = EvolutionEngine::new(SmartAgent, ());
    let result = PipelineResult {
        project_id: 42,
        success: true,
        final_stage: PipelineStage::Done,
        stages_completed: vec![],
        stages_failed: vec![],
        total_tasks: 0,
        completed_tasks: 0,
        failed_tasks: 0,
        retry_count: 0,
        duration_secs: 0,
        artifacts: ProjectArtifacts::default(),
        error_summary: None,
    };
    let patterns = vec![pattern("a", &[]), pattern("b", &[]), pattern("c", &[])];
    let out = engine.generate_best_practices(&patterns, &vec![pattern("lost", &[])], &result).unwrap();
    assert_eq!(out.len(), 3);
    assert!(!out[0].created_at.is_empty());
    assert!(out.iter().all(|p| p.created_at == out[0].created_at));
    assert_eq!(out[2].id, format!("bp-{}-2", uuid::Uuid::from_u128(42)));
    assert!(engine.generate_best_practices(&vec![], &vec![], &result).unwrap().is_empty());
}

fn is_utc_rfc3339(s: &str) -> bool {
    let b = s.as_bytes();
    let n = b.len();
    if n < 25 || !s.ends_with("+00:00") {
        return false;
    }
    let body = &s[..n - 6];
    let (main, frac) = match body.find('.') {
        Some(p) => (&body[..p], &body[p + 1..]),
        None => (body, ""),
    };
    let digits = |t: &str| t.bytes().all(|c| c.is_ascii_digit());
    let frac_ok = frac.is_empty() || ([3, 6, 9].contains(&frac.len()) && digits(frac));
    let m = main.as_bytes();
    let k = m.len();
    frac_ok
        && k == 19
        && digits(&main[0..4])
        && m[4] == b'-'
        && m[7] == b'-'
        && m[10] == b'T'
        && m[13] == b':'
        && m[16] == b':'
        && digits(&main[5..7])
        && digits(&main[8..10])
        && digits(&main[11..13])
        && digits(&main[14..16])
        && digits(&main[17..19])
}

#[test]
fn practices_are_stamped_with_an_rfc3339_utc_time() {
    let engine = EvolutionEngine::new(SmartAgent, ());
    let result = PipelineResult {
        project_id: 7,
        success: true,
        final_stage: PipelineStage::Done,
        stages_completed: vec![],
        stages_failed: vec![],
        total_tasks: 0,
        completed_tasks: 0,
        failed_tasks: 0,
        retry_count: 0,
        duration_secs: 0,
        artifacts: ProjectArtifacts::default(),
        error_summary: None,
    };
    let out = engine.generate_best_practices(&vec![pattern("a", &[])], &vec![], &result).unwrap();
    assert!(is_utc_rfc3339(&out[0].created_at), "{}", out[0].created_at);
}

#[test]
fn practices_are_saved_in_order_under_their_keys() {
    let practices = practices_for(&vec![pattern("a", &[]), pattern("b", &[])], "p1", "t");
    let mut cmd = SaveRun::start(&practices);
    let mut saved: Vec<(usize, String)> = Vec::new();
    loop {
        match cmd {
            SaveCommand::Save { index, key, state } => {
                saved.push((index, key));
                cmd = state.resume(Ok(()));
            }
            SaveCommand::Finish(outcome) => {
                assert!(outcome.is_ok());
                break;
            }
        }
    }
    assert_eq!(saved, vec![(0, "best_practice:bp-p1-0".to_string()), (1, "best_practice:bp-p1-1".to_string())]);
    assert!(matches!(SaveRun::start(&vec![]), SaveCommand::Finish(Ok(()))));
}

#[test]
fn a_failed_save_stops_the_saving() {
    let practices = practices_for(&vec![pattern("a", &[]), pattern("b", &[])], "p1", "t");
    let state = match SaveRun::start(&practices) {
        SaveCommand::Save { state, .. } => state,
        SaveCommand::Finish(_) => panic!("a save was expected"),
    };
    match state.resume(Err(AgentError::Internal("store offline".to_string()))) {
        SaveCommand::Finish(Err(AgentError::Internal(m))) => assert_eq!(m, "store offline"),
        _ => panic!("the save error was expected"),
    }
}
