use cc_agent::agent::SmartAgent;
use cc_agent::error::AgentError;
use cc_agent::swarm::decomposer::{AtomicTask, TaskStatus, TestCase};
use cc_agent::swarm::roles::AgentRole;
use cc_agent::swarm::self_fix::{ChangeType, FileChange, FixCommand, FixPlan, SelfFixEngine};

fn test_case(name: &str, passed: Option<bool>) -> TestCase {
    TestCase {
        id: 1,
        name: name.to_string(),
        input: String::new(),
        expected_output: String::new(),
        actual_output: None,
        passed,
    }
}

fn task_with(tests: Vec<TestCase>) -> AtomicTask {
    AtomicTask {
        id: 9,
        module_id: 1,
        title: "t".to_string(),
        description: String::new(),
        assigned_role: AgentRole::Tester,
        input_files: vec!["src/a.rs".to_string(), "src/b.rs".to_string()],
        output_files: vec![],
        test_cases: tests,
        status: TaskStatus::InProgress,
        retry_count: 0,
        error_message: None,
    }
}

#[test]
fn engine_allows_three_rounds() {
    let e = SelfFixEngine::new(SmartAgent);
    let task = task_with(vec![test_case("t1", Some(false))]);
    let mut cmd = e.fix_loop(&task, "boom");
    let mut requested: Vec<(usize, usize, String)> = Vec::new();
    loop {
        match cmd {
            FixCommand::Write { write, state } => {
                requested.push((state.round(), state.write_number(), write.path.clone()));
                assert_eq!(write.content, "");
                cmd = e.fix_loop_resume(&task, state, Ok(()));
            }
            FixCommand::Finish(res) => {
                let r = res.unwrap();
                assert!(!r.success);
                assert_eq!(r.retries, 3);
                assert!(r.changes.is_empty());
                break;
            }
        }
    }
    let expected: Vec<(usize, usize, String)> = (0..3)
        .flat_map(|r| vec![(r, 0, "src/a.rs".to_string()), (r, 1, "src/b.rs".to_string())])
        .collect();
    assert_eq!(requested, expected);
}

#[test]
fn passing_tests_finish_after_one_round() {
    let e = SelfFixEngine::new(SmartAgent);
    let task = task_with(vec![test_case("t1", Some(true)), test_case("t2", None)]);
    let (first, state) = match e.fix_loop(&task, "boom") {
        FixCommand::Write { write, state } => (write, state),
        FixCommand::Finish(_) => panic!("a write was expected"),
    };
    assert_eq!(first.path, "src/a.rs");
    assert_eq!(first.content, "");
    let (second, state) = match e.fix_loop_resume(&task, state, Ok(())) {
        FixCommand::Write { write, state } => (write, state),
        FixCommand::Finish(_) => panic!("a second write was expected"),
    };
    assert_eq!(second.path, "src/b.rs");
    assert_eq!(state.write_number(), 1);
    match e.fix_loop_resume(&task, state, Ok(())) {
        FixCommand::Finish(Ok(r)) => {
            assert!(r.success);
            assert_eq!(r.retries, 1);
            assert_eq!(r.changes.len(), 2);
            assert_eq!(r.changes[1].path, "src/b.rs");
            assert_eq!(r.changes[1].change_type, ChangeType::Modify);
        }
        _ => panic!("success was expected"),
    }
}

#[test]
fn failed_write_stops_the_loop() {
    let e = SelfFixEngine::new(SmartAgent);
    let task = task_with(vec![]);
    let state = match e.fix_loop(&task, "boom") {
        FixCommand::Write { state, .. } => state,
        FixCommand::Finish(_) => panic!("a write was expected"),
    };
    match e.fix_loop_resume(&task, state, Err("disk full".to_string())) {
        FixCommand::Finish(Err(AgentError::ExecutionFailed(m))) => assert_eq!(m, "disk full"),
        _ => panic!("the write error was expected"),
    }
}

#[test]
fn failed_second_write_requests_nothing_more() {
    let e = SelfFixEngine::new(SmartAgent);
    let task = task_with(vec![test_case("t1", Some(false))]);
    let state = match e.fix_loop(&task, "boom") {
        FixCommand::Write { state, .. } => state,
        FixCommand::Finish(_) => panic!("a write was expected"),
    };
    let state = match e.fix_loop_resume(&task, state, Ok(())) {
        FixCommand::Write { write, state } => {
            assert_eq!(write.path, "src/b.rs");
            state
        }
        FixCommand::Finish(_) => panic!("a second write was expected"),
    };
    match e.fix_loop_resume(&task, state, Err("permission denied".to_string())) {
        FixCommand::Finish(Err(AgentError::ExecutionFailed(m))) => assert_eq!(m, "permission denied"),
        _ => panic!("the write error was expected"),
    }
}

#[test]
fn task_without_inputs_is_validated_without_writes() {
    let e = SelfFixEngine::new(SmartAgent);
    let mut passing = task_with(vec![test_case("t1", Some(true))]);
    passing.input_files.clear();
    match e.fix_loop(&passing, "boom") {
        FixCommand::Finish(Ok(r)) => {
            assert!(r.success);
            assert_eq!(r.retries, 1);
            assert!(r.changes.is_empty());
        }
        _ => panic!("success without writes was expected"),
    }
    let mut failing = task_with(vec![test_case("t1", Some(false))]);
    failing.input_files.clear();
    match e.fix_loop(&failing, "boom") {
        FixCommand::Finish(Ok(r)) => {
            assert!(!r.success);
            assert_eq!(r.retries, 3);
        }
        _ => panic!("giving up without writes was expected"),
    }
}

#[test]
fn analysis_and_plan() {
    let e = SelfFixEngine::new(SmartAgent);
    let task = task_with(vec![]);
    let a = e.analyze_error("assertion failed", &task).unwrap();
    assert_eq!(a.error_type, "test_failure");
    assert_eq!(a.root_cause, "assertion failed");
    assert_eq!(a.affected_files, task.input_files);
    assert_eq!(a.suggested_fix, "Inspect failing assertions and update implementation");
    let p = e.generate_fix_plan(&a, &task).unwrap();
    assert_eq!(p.task_id, 9);
    assert_eq!(p.changes.len(), 2);
    assert!(p.changes[0].old_content.is_none());
    assert_eq!(p.validation_steps, vec!["re-run unit tests".to_string()]);
    assert!(p.test_updates.is_empty());
}

#[test]
fn deletions_are_not_written() {
    let e = SelfFixEngine::new(SmartAgent);
    let change = |p: &str, t: ChangeType| FileChange {
        path: p.to_string(),
        old_content: None,
        new_content: format!("new {}", p),
        change_type: t,
    };
    let plan = FixPlan {
        task_id: 1,
        changes: vec![change("a", ChangeType::Create), change("b", ChangeType::Delete), change("c", ChangeType::Modify)],
        test_updates: vec![],
        validation_steps: vec![],
    };
    let writes = e.planned_writes(&plan);
    assert_eq!(writes.len(), 2);
    assert_eq!(writes[0].path, "a");
    assert_eq!(writes[0].content, "new a");
    assert_eq!(writes[1].path, "c");
}

#[test]
fn validation_reports_the_first_failed_test() {
    let e = SelfFixEngine::new(SmartAgent);
    let task = task_with(vec![test_case("ok", None), test_case("login", Some(false)), test_case("logout", Some(false))]);
    match e.validate_fix(&task) {
        Err(AgentError::ExecutionFailed(m)) => assert_eq!(m, "Test login failed: "),
        _ => panic!("a failure was expected"),
    }
    assert!(e.validate_fix(&task_with(vec![test_case("ok", Some(true))])).is_ok());
}

#[test]
fn tests_not_yet_run_count_as_passing() {
    let e = SelfFixEngine::new(SmartAgent);
    let r = e.run_test(&test_case("x", None)).unwrap();
    assert!(r.passed && r.error.is_none() && r.output.is_empty());
    assert!(!e.run_test(&test_case("x", Some(false))).unwrap().passed);
}
