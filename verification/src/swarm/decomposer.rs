//! Splitting a requirement into feature modules and atomic tasks, and
//! ordering the tasks by the files they consume and produce.

use vstd::prelude::*;
use vstd::string::StringExecFns;

use crate::agent::SmartAgent;
use crate::error::AgentError;
use crate::ids::{drawn_id, lemma_drawn_id, new_v4_id};
use crate::swarm::graph_model::{
    add_edge_model, add_node_model, is_level_order, reaches_cycle, GraphModel,
};
use crate::swarm::roles::AgentRole;
use crate::swarm::task_graph::TaskGraph;

verus! {

/// A feature of the product, as planned. Ids are the 128-bit values of UUIDs.
/// The planned effort in hours, a floating-point figure that no rule here
/// reads, is not held in this type: the application's serialisable record
/// of a module carries it.
#[derive(Debug, Clone)]
pub struct FeatureModule {
    pub id: u128,
    pub name: String,
    pub description: String,
    pub priority: u8,
    pub dependencies: Vec<u128>,
}

/// One unit of work assigned to one agent role.
#[derive(Debug, Clone)]
pub struct AtomicTask {
    pub id: u128,
    pub module_id: u128,
    pub title: String,
    pub description: String,
    pub assigned_role: AgentRole,
    pub input_files: Vec<String>,
    pub output_files: Vec<String>,
    pub test_cases: Vec<TestCase>,
    pub status: TaskStatus,
    pub retry_count: usize,
    pub error_message: Option<String>,
}

/// A test attached to a task; `passed` is `None` until it has been run.
#[derive(Debug, Clone)]
pub struct TestCase {
    pub id: u128,
    pub name: String,
    pub input: String,
    pub expected_output: String,
    pub actual_output: Option<String>,
    pub passed: Option<bool>,
}

#[derive(Debug, Clone, Copy, PartialEq, Eq, Structural)]
pub enum TaskStatus {
    Pending,
    InProgress,
    Completed,
    Failed,
    Skipped,
}

/// Breaks requirements and modules down into tasks.
#[derive(Debug, Clone, Copy, PartialEq, Eq)]
pub struct TaskDecomposer {
    agent: SmartAgent,
}

/// Some file in `outputs` has the same text as `file`.
pub open spec fn produces(outputs: Seq<String>, file: String) -> bool {
    exists|k: int| 0 <= k < outputs.len() && #[trigger] outputs[k]@ == file@
}

/// The first `m` inputs of `task` are scanned; each one that `other`
/// produces adds an edge `other -> task`.
pub open spec fn link_inputs(g: GraphModel, other: AtomicTask, task: AtomicTask, m: nat) -> GraphModel
    decreases m,
{
    if m == 0 {
        g
    } else {
        let g1 = link_inputs(g, other, task, (m - 1) as nat);
        if produces(other.output_files@, task.input_files@[m - 1]) {
            add_edge_model(g1, other.id, task.id)
        } else {
            g1
        }
    }
}

/// The first `j` tasks of `tasks` are scanned as producers for `task`;
/// a task with the same id is skipped.
pub open spec fn link_producers(g: GraphModel, tasks: Seq<AtomicTask>, task: AtomicTask, j: nat) -> GraphModel
    decreases j,
{
    if j == 0 {
        g
    } else {
        let g1 = link_producers(g, tasks, task, (j - 1) as nat);
        let other = tasks[j - 1];
        if other.id == task.id {
            g1
        } else {
            link_inputs(g1, other, task, task.input_files@.len())
        }
    }
}

/// The graph after the first `n` tasks have each been added as a node and
/// linked to every task that produces one of its inputs.
pub open spec fn dependency_graph_prefix(tasks: Seq<AtomicTask>, n: nat) -> GraphModel
    decreases n,
{
    if n == 0 {
        GraphModel { nodes: Seq::empty(), adj: Map::empty() }
    } else {
        let task = tasks[n - 1];
        link_producers(
            add_node_model(dependency_graph_prefix(tasks, (n - 1) as nat), task.id),
            tasks,
            task,
            tasks.len(),
        )
    }
}

/// The dependency graph of a list of tasks.
pub open spec fn dependency_graph(tasks: Seq<AtomicTask>) -> GraphModel {
    dependency_graph_prefix(tasks, tasks.len())
}

/// `t` is the pending backend task with id `id` that implements module
/// `m`, with no files or tests yet.
pub open spec fn module_task_with_id(t: AtomicTask, m: FeatureModule, id: u128) -> bool {
    &&& t.id == id
    &&& t.module_id == m.id
    &&& t.title@ == "Implement "@ + m.name@
    &&& t.description@ == m.description@
    &&& t.assigned_role == AgentRole::BackendCoder
    &&& t.input_files@.len() == 0
    &&& t.output_files@.len() == 0
    &&& t.test_cases@.len() == 0
    &&& t.status == TaskStatus::Pending
    &&& t.retry_count == 0
    &&& t.error_message.is_none()
}

/// `t` is the pending backend task that implements module `m`, with no
/// files or tests yet, under a fresh version-4 UUID.
pub open spec fn task_for_module(t: AtomicTask, m: FeatureModule) -> bool {
    &&& module_task_with_id(t, m, t.id)
    &&& (t.id >> 76u128) & 0xfu128 == 4
    &&& (t.id >> 62u128) & 0x3u128 == 2
}

/// Whether some string in `v` has the same text as `s`.
fn contains_string(v: &Vec<String>, s: &String) -> (found: bool)
    ensures
        found == produces(v@, *s),
{
    let mut i: usize = 0;
    while i < v.len()
        invariant
            i <= v.len(),
            forall|k: int| 0 <= k < i ==> v@[k]@ != s@,
        decreases v.len() - i,
    {
        if v[i] == *s {
            return true;
        }
        i = i + 1;
    }
    false
}

impl TaskDecomposer {
    pub fn new(agent: SmartAgent) -> (d: TaskDecomposer)
        ensures
            d.agent() == agent,
    {
        TaskDecomposer { agent }
    }

    pub closed spec fn agent(&self) -> SmartAgent {
        self.agent
    }

    /// `t` is the task that a call of `decompose_to_tasks` on `m` returned:
    /// it carries the id that call drew.
    pub closed spec fn drawn_for(&self, m: FeatureModule, t: AtomicTask) -> bool {
        exists|r: Result<Vec<AtomicTask>, AgentError>|
            #[trigger] call_ensures(TaskDecomposer::decompose_to_tasks, (self, &m), r) && (r matches Ok(v) && v@
                == seq![t])
    }

    /// Splits a requirement into feature modules; no module is produced yet.
    pub fn decompose_to_modules(&self, requirement: &str) -> (res: Result<Vec<FeatureModule>, AgentError>)
        ensures
            res matches Ok(ms) && ms@.len() == 0,
    {
        Ok(Vec::new())
    }

    /// One pending backend task that implements the whole module, under a
    /// fresh random id.
    pub fn decompose_to_tasks(&self, module: &FeatureModule) -> (res: Result<Vec<AtomicTask>, AgentError>)
        ensures
            res matches Ok(ts) && ts@.len() == 1 && task_for_module(ts@[0], *module) && drawn_id(ts@[0].id),
    {
        let id = new_v4_id();
        proof {
            lemma_drawn_id(id);
        }
        let task = self.module_task(module, id);
        let mut tasks = Vec::new();
        tasks.push(task);
        Ok(tasks)
    }

    /// The pending backend task with id `id` that implements the whole module.
    pub fn module_task(&self, module: &FeatureModule, id: u128) -> (t: AtomicTask)
        ensures
            module_task_with_id(t, *module, id),
    {
        let mut title = "Implement ".to_string();
        title.append(module.name.as_str());
        AtomicTask {
            id,
            module_id: module.id,
            title,
            description: module.description.clone(),
            assigned_role: AgentRole::BackendCoder,
            input_files: Vec::new(),
            output_files: Vec::new(),
            test_cases: Vec::new(),
            status: TaskStatus::Pending,
            retry_count: 0,
            error_message: None,
        }
    }

    /// The tasks of all modules, in module order: one task per module, each
    /// the one a call of `decompose_to_tasks` on that module returned, so
    /// each carries an id drawn for it alone.
    pub fn decompose_modules(&self, modules: &Vec<FeatureModule>) -> (res: Result<Vec<AtomicTask>, AgentError>)
        ensures
            res matches Ok(ts) && ts@.len() == modules@.len() && forall|i: int|
                0 <= i < ts@.len() ==> task_for_module(#[trigger] ts@[i], modules@[i]) && self.drawn_for(
                    modules@[i],
                    ts@[i],
                ),
    {
        let mut tasks: Vec<AtomicTask> = Vec::new();
        let mut i: usize = 0;
        while i < modules.len()
            invariant
                i <= modules.len(),
                tasks@.len() == i,
                forall|k: int|
                    0 <= k < i ==> task_for_module(#[trigger] tasks@[k], modules@[k]) && self.drawn_for(
                        modules@[k],
                        tasks@[k],
                    ),
            decreases modules.len() - i,
        {
            let drawn = self.decompose_to_tasks(&modules[i]);
            let ghost result = drawn;
            let mut more = match drawn {
                Ok(more) => more,
                Err(e) => {
                    return Err(e);
                },
            };
            let ghost before = tasks@;
            let ghost added = more@;
            tasks.append(&mut more);
            proof {
                assert(task_for_module(added[0], modules@[i as int]));
                assert(added =~= seq![added[0]]);
                assert(self.drawn_for(modules@[i as int], added[0]));
                assert forall|k: int| 0 <= k < i + 1 implies task_for_module(
                    #[trigger] tasks@[k],
                    modules@[k],
                ) && self.drawn_for(modules@[k], tasks@[k]) by {
                    if k < i {
                        assert(tasks@[k] == before[k]);
                    } else {
                        assert(tasks@[k] == added[0]);
                    }
                }
            }
            i = i + 1;
        }
        Ok(tasks)
    }

    /// Builds the graph in which `a -> b` means that `b` reads a file that
    /// `a` writes, and refuses it when it holds a reachable cycle.
    pub fn build_dependency_graph(&self, tasks: &Vec<AtomicTask>) -> (res: Result<TaskGraph, AgentError>)
        ensures
            match res {
                Ok(g) => g@ == dependency_graph(tasks@) && !reaches_cycle(g@),
                Err(e) => reaches_cycle(dependency_graph(tasks@)) && (e matches AgentError::Internal(m)
                    && m@ == "Circular dependency detected"@),
            },
    {
        let mut graph = TaskGraph::new();
        let mut n: usize = 0;
        while n < tasks.len()
            invariant
                n <= tasks.len(),
                graph@ == dependency_graph_prefix(tasks@, n as nat),
            decreases tasks.len() - n,
        {
            let task = &tasks[n];
            graph.add_node(task.id);
            let ghost base = graph@;
            let mut j: usize = 0;
            while j < tasks.len()
                invariant
                    n < tasks.len(),
                    j <= tasks.len(),
                    *task == tasks@[n as int],
                    graph@ == link_producers(base, tasks@, *task, j as nat),
                decreases tasks.len() - j,
            {
                let other = &tasks[j];
                if other.id != task.id {
                    let ghost before = graph@;
                    let mut m: usize = 0;
                    while m < task.input_files.len()
                        invariant
                            m <= task.input_files.len(),
                            j < tasks.len(),
                            *other == tasks@[j as int],
                            graph@ == link_inputs(before, *other, *task, m as nat),
                        decreases task.input_files.len() - m,
                    {
                        if contains_string(&other.output_files, &task.input_files[m]) {
                            graph.add_edge(other.id, task.id);
                        }
                        m = m + 1;
                    }
                }
                j = j + 1;
            }
            n = n + 1;
        }
        proof {
            assert(tasks@.len() == tasks.len());
        }
        if graph.has_cycle() {
            return Err(AgentError::Internal("Circular dependency detected".to_string()));
        }
        Ok(graph)
    }

    /// The level order in which the tasks of `graph` can be run.
    pub fn generate_execution_plan(&self, graph: &TaskGraph) -> (res: Result<Vec<Vec<u128>>, AgentError>)
        ensures
            res matches Ok(levels) && is_level_order(graph@, levels@.map_values(|l: Vec<u128>| l@)),
    {
        Ok(graph.topological_sort_parallel())
    }
}

} // verus!
