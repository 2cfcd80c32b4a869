use cc_agent::agent::SmartAgent;
use cc_agent::error::AgentError;
use cc_agent::swarm::decomposer::{AtomicTask, FeatureModule, TaskDecomposer, TaskStatus};
use cc_agent::swarm::roles::AgentRole;

fn task(id: u128, inputs: &[&str], outputs: &[&str]) -> AtomicTask {
    AtomicTask {
        id,
        module_id: 0,
        title: format!("task {}", id),
        description: String::new(),
        assigned_role: AgentRole::BackendCoder,
        input_files: inputs.iter().map(|s| s.to_string()).collect(),
        output_files: outputs.iter().map(|s| s.to_string()).collect(),
        test_cases: vec![],
        status: TaskStatus::Pending,
        retry_count: 0,
        error_message: None,
    }
}

fn module(name: &str) -> FeatureModule {
    FeatureModule {
        id: 42,
        name: name.to_string(),
        description: "login flow".to_string(),
        priority: 1,
        dependencies: vec![],
    }
}

#[test]
fn modules_are_not_produced_yet() {
    let d = TaskDecomposer::new(SmartAgent);
    assert!(d.decompose_to_modules("build a shop").unwrap().is_empty());
}

#[test]
fn a_module_becomes_one_backend_task() {
    let d = TaskDecomposer::new(SmartAgent);
    let tasks = d.decompose_to_tasks(&module("Auth")).unwrap();
    assert_eq!(tasks.len(), 1);
    let t = &tasks[0];
    assert_eq!(t.module_id, 42);
    assert_eq!(t.title, "Implement Auth");
    assert_eq!(t.description, "login flow");
    assert_eq!(t.assigned_role, AgentRole::BackendCoder);
    assert_eq!(t.status, TaskStatus::Pending);
    assert_eq!(t.retry_count, 0);
    assert!(t.error_message.is_none());
    assert!(t.input_files.is_empty() && t.output_files.is_empty() && t.test_cases.is_empty());
    assert_eq!((t.id >> 76) & 0xf, 4);
    assert_eq!((t.id >> 62) & 0x3, 2);
}

#[test]
fn fresh_task_ids_differ() {
    let d = TaskDecomposer::new(SmartAgent);
    let a = d.decompose_to_tasks(&module("A")).unwrap();
    let b = d.decompose_to_tasks(&module("A")).unwrap();
    assert_ne!(a[0].id, b[0].id);
}

#[test]
fn all_modules_are_decomposed_in_order() {
    let d = TaskDecomposer::new(SmartAgent);
    let mut second = module("Cart");
    second.id = 43;
    let tasks = d.decompose_modules(&vec![module("Auth"), second]).unwrap();
    assert_eq!(tasks.len(), 2);
    assert_eq!(tasks[0].title, "Implement Auth");
    assert_eq!(tasks[1].title, "Implement Cart");
    assert_eq!(tasks[1].module_id, 43);
}

#[test]
fn producer_runs_before_consumer() {
    let d = TaskDecomposer::new(SmartAgent);
    let tasks = vec![task(1, &[], &["schema.sql"]), task(2, &["schema.sql"], &["api.rs"]), task(3, &["api.rs"], &[])];
    let g = d.build_dependency_graph(&tasks).unwrap();
    let plan = d.generate_execution_plan(&g).unwrap();
    assert_eq!(plan, vec![vec![1], vec![2], vec![3]]);
}

#[test]
fn independent_tasks_share_a_level() {
    let d = TaskDecomposer::new(SmartAgent);
    let tasks = vec![task(1, &["a"], &[]), task(2, &["b"], &[])];
    let g = d.build_dependency_graph(&tasks).unwrap();
    let mut level = d.generate_execution_plan(&g).unwrap().remove(0);
    level.sort();
    assert_eq!(level, vec![1, 2]);
}

#[test]
fn circular_dependency_is_refused() {
    let d = TaskDecomposer::new(SmartAgent);
    let tasks = vec![task(1, &[], &["x"]), task(2, &["x"], &["y"]), task(1, &["y"], &[])];
    match d.build_dependency_graph(&tasks) {
        Err(AgentError::Internal(m)) => assert_eq!(m, "Circular dependency detected"),
        _ => panic!("expected the cycle to be refused"),
    }
}

#[test]
fn link_back_to_an_earlier_task_is_dropped() {
    let d = TaskDecomposer::new(SmartAgent);
    let tasks = vec![task(1, &["y"], &["x"]), task(2, &["x"], &["y"])];
    let g = d.build_dependency_graph(&tasks).unwrap();
    assert_eq!(d.generate_execution_plan(&g).unwrap(), vec![vec![1], vec![2]]);
}

#[test]
fn producer_listed_after_consumer_is_not_linked() {
    let d = TaskDecomposer::new(SmartAgent);
    let tasks = vec![task(2, &["schema.sql"], &[]), task(1, &[], &["schema.sql"])];
    let g = d.build_dependency_graph(&tasks).unwrap();
    let plan = d.generate_execution_plan(&g).unwrap();
    assert_eq!(plan.len(), 1);
    let mut level = plan[0].clone();
    level.sort();
    assert_eq!(level, vec![1, 2]);
}

#[test]
fn task_reading_its_own_output_is_not_a_cycle() {
    let d = TaskDecomposer::new(SmartAgent);
    let tasks = vec![task(1, &["a"], &["a"])];
    let g = d.build_dependency_graph(&tasks).unwrap();
    assert_eq!(d.generate_execution_plan(&g).unwrap(), vec![vec![1]]);
}

#[test]
fn a_module_task_takes_the_given_id() {
    let d = TaskDecomposer::new(SmartAgent);
    let t = d.module_task(&module("Billing"), 0x1234);
    assert_eq!(t.id, 0x1234);
    assert_eq!(t.module_id, 42);
    assert_eq!(t.title, "Implement Billing");
    assert_eq!(t.description, "login flow");
    assert_eq!(t.assigned_role, AgentRole::BackendCoder);
    assert_eq!(t.status, TaskStatus::Pending);
    assert!(t.input_files.is_empty() && t.output_files.is_empty() && t.test_cases.is_empty());
}

#[test]
fn a_later_producer_is_linked_when_its_id_came_first() {
    let d = TaskDecomposer::new(SmartAgent);
    let tasks = vec![task(1, &[], &[]), task(2, &["schema.sql"], &[]), task(1, &[], &["schema.sql"])];
    let g = d.build_dependency_graph(&tasks).unwrap();
    assert_eq!(d.generate_execution_plan(&g).unwrap(), vec![vec![1], vec![2]]);
}
