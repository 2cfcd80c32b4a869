//! The self-fix loop: analyse a failure, plan file changes, have them
//! written, re-validate the task's tests, and retry a bounded number of times.
//!
//! Writing files is done by the caller (it goes through the tool server);
//! this module decides what to write and what follows from each outcome.

use vstd::prelude::*;
use vstd::string::StringExecFns;

use crate::agent::SmartAgent;
use crate::error::AgentError;
use crate::swarm::decomposer::{AtomicTask, TestCase};

verus! {

/// What the analysis of a failure found. The confidence figure, a
/// floating-point value that no rule here reads, is not held in this type:
/// the application's serialisable record of an analysis carries it.
#[derive(Debug, Clone)]
pub struct ErrorAnalysis {
    pub error_type: String,
    pub root_cause: String,
    pub affected_files: Vec<String>,
    pub suggested_fix: String,
}

#[derive(Debug, Clone)]
pub struct FixPlan {
    pub task_id: u128,
    pub changes: Vec<FileChange>,
    pub test_updates: Vec<TestUpdate>,
    pub validation_steps: Vec<String>,
}

#[derive(Debug, Clone)]
pub struct FileChange {
    pub path: String,
    pub old_content: Option<String>,
    pub new_content: String,
    pub change_type: ChangeType,
}

#[derive(Debug, Clone, Copy, PartialEq, Eq, Structural)]
pub enum ChangeType {
    Create,
    Modify,
    Delete,
}

#[derive(Debug, Clone)]
pub struct TestUpdate {
    pub test_file: String,
    pub test_name: String,
    pub update_type: String,
}

#[derive(Debug, Clone)]
pub struct TestResult {
    pub passed: bool,
    pub error: Option<String>,
    pub output: String,
}

#[derive(Debug, Clone)]
pub struct FixResult {
    pub success: bool,
    pub retries: usize,
    pub changes: Vec<FileChange>,
}

/// One file the caller is asked to write.
#[derive(Debug, Clone)]
pub struct FileWrite {
    pub path: String,
    pub content: String,
}

/// The loop while one write of a round is outstanding: the round number
/// (from 0), the bound on rounds, the last error seen, the plan of the
/// round, the writes it asks for and the index of the one requested.
pub struct FixLoop {
    retry_count: usize,
    max_retries: usize,
    last_error: String,
    plan: FixPlan,
    writes: Vec<FileWrite>,
    next: usize,
}

/// What the caller must do next.
pub enum FixCommand {
    /// Write this file, then report the outcome with `fix_loop_resume`.
    Write { write: FileWrite, state: FixLoop },
    /// The loop is over with this outcome.
    Finish(Result<FixResult, AgentError>),
}

pub struct SelfFixEngine {
    agent: SmartAgent,
    max_retries: usize,
}

/// The change planned for one affected file: rewrite it, in place, to empty content.
pub open spec fn is_planned_change(c: FileChange, path: String) -> bool {
    &&& c.path@ == path@
    &&& c.old_content.is_none()
    &&& c.new_content@ == Seq::<char>::empty()
    &&& c.change_type == ChangeType::Modify
}

/// The changes to write: every change that is not a deletion, in order.
pub open spec fn writes_of(changes: Seq<FileChange>) -> Seq<FileChange>
    decreases changes.len(),
{
    if changes.len() == 0 {
        Seq::empty()
    } else {
        let rest = writes_of(changes.drop_last());
        if changes.last().change_type == ChangeType::Delete {
            rest
        } else {
            rest.push(changes.last())
        }
    }
}

/// `a` and `b` ask for the same text in the same file.
pub open spec fn same_write(a: FileWrite, b: FileWrite) -> bool {
    a.path@ == b.path@ && a.content@ == b.content@
}

/// `writes` asks exactly for the (path, new content) of each change.
pub open spec fn writes_match(writes: Seq<FileWrite>, changes: Seq<FileChange>) -> bool {
    &&& writes.len() == changes.len()
    &&& forall|i: int|
        0 <= i < writes.len() ==> (#[trigger] writes[i]).path@ == changes[i].path@ && writes[i].content@
            == changes[i].new_content@
}

/// Index of the first test that is recorded as failed, if any.
pub open spec fn first_failing(tests: Seq<TestCase>) -> Option<int>
    decreases tests.len(),
{
    if tests.len() == 0 {
        None
    } else {
        match first_failing(tests.drop_last()) {
            Some(i) => Some(i),
            None => if tests.last().passed == Some(false) {
                Some(tests.len() - 1)
            } else {
                None
            },
        }
    }
}

/// The message of the validation error for a failed test.
pub open spec fn failure_message(t: TestCase) -> Seq<char> {
    "Test "@ + t.name@ + " failed: "@
}

/// The plan of changes for `task`: one in-place rewrite per input file.
pub open spec fn plan_matches(plan: FixPlan, task: AtomicTask) -> bool {
    &&& plan.task_id == task.id
    &&& plan.changes@.len() == task.input_files@.len()
    &&& forall|i: int|
        0 <= i < plan.changes@.len() ==> is_planned_change(
            #[trigger] plan.changes@[i],
            task.input_files@[i],
        )
    &&& plan.test_updates@.len() == 0
    &&& plan.validation_steps@.len() == 1
    &&& plan.validation_steps@[0]@ == "re-run unit tests"@
}

impl FixLoop {
    pub closed spec fn retry_count(&self) -> usize {
        self.retry_count
    }

    pub closed spec fn max_retries(&self) -> usize {
        self.max_retries
    }

    pub closed spec fn last_error(&self) -> Seq<char> {
        self.last_error@
    }

    pub closed spec fn plan(&self) -> FixPlan {
        self.plan
    }

    pub closed spec fn writes(&self) -> Seq<FileWrite> {
        self.writes@
    }

    pub closed spec fn next(&self) -> int {
        self.next as int
    }

    #[verifier::type_invariant]
    spec fn inv(self) -> bool {
        &&& self.retry_count < self.max_retries
        &&& self.next < self.writes@.len()
    }

    /// A pending round is always below the bound.
    pub fn round(&self) -> (r: usize)
        ensures
            r == self.retry_count(),
            r < self.max_retries(),
    {
        proof {
            use_type_invariant(self);
        }
        self.retry_count
    }

    /// The index, within its round, of the write requested.
    pub fn write_number(&self) -> (j: usize)
        ensures
            j == self.next(),
            j < self.writes().len(),
    {
        proof {
            use_type_invariant(self);
        }
        self.next
    }
}

/// Lemma: every change of a planned fix is written.
proof fn lemma_writes_of_all_modify(changes: Seq<FileChange>)
    requires
        forall|i: int| 0 <= i < changes.len() ==> (#[trigger] changes[i]).change_type == ChangeType::Modify,
    ensures
        writes_of(changes) == changes,
    decreases changes.len(),
{
    if changes.len() > 0 {
        let init = changes.drop_last();
        assert forall|i: int| 0 <= i < init.len() implies (#[trigger] init[i]).change_type
            == ChangeType::Modify by {
            assert(init[i] == changes[i]);
        }
        lemma_writes_of_all_modify(init);
        assert(changes.last() == changes[changes.len() - 1]);
        assert(init.push(changes.last()) =~= changes);
    }
}

impl SelfFixEngine {
    /// An engine that allows three rounds.
    pub fn new(agent: SmartAgent) -> (e: SelfFixEngine)
        ensures
            e.agent() == agent,
            e.max_retries() == 3,
    {
        SelfFixEngine { agent, max_retries: 3 }
    }

    pub closed spec fn agent(&self) -> SmartAgent {
        self.agent
    }

    pub closed spec fn max_retries(&self) -> usize {
        self.max_retries
    }

    /// Classifies a failure of `task` as a test failure caused by `error`,
    /// affecting the task's input files.
    pub fn analyze_error(&self, error: &str, task: &AtomicTask) -> (res: Result<ErrorAnalysis, AgentError>)
        ensures
            res matches Ok(a) && {
                &&& a.error_type@ == "test_failure"@
                &&& a.root_cause@ == error@
                &&& a.affected_files@.len() == task.input_files@.len()
                &&& forall|i: int|
                    0 <= i < a.affected_files@.len() ==> (#[trigger] a.affected_files@[i])@
                        == task.input_files@[i]@
                &&& a.suggested_fix@ == "Inspect failing assertions and update implementation"@
            },
    {
        let mut files: Vec<String> = Vec::new();
        let mut i: usize = 0;
        while i < task.input_files.len()
            invariant
                i <= task.input_files.len(),
                files@.len() == i,
                forall|k: int| 0 <= k < i ==> (#[trigger] files@[k])@ == task.input_files@[k]@,
            decreases task.input_files.len() - i,
        {
            files.push(task.input_files[i].clone());
            i = i + 1;
        }
        Ok(
            ErrorAnalysis {
                error_type: "test_failure".to_string(),
                root_cause: error.to_string(),
                affected_files: files,
                suggested_fix: "Inspect failing assertions and update implementation".to_string(),
            },
        )
    }

    /// Plans one in-place rewrite to empty content for each affected file.
    pub fn generate_fix_plan(&self, analysis: &ErrorAnalysis, task: &AtomicTask) -> (res: Result<FixPlan, AgentError>)
        ensures
            res matches Ok(p) && {
                &&& p.task_id == task.id
                &&& p.changes@.len() == analysis.affected_files@.len()
                &&& forall|i: int|
                    0 <= i < p.changes@.len() ==> is_planned_change(
                        #[trigger] p.changes@[i],
                        analysis.affected_files@[i],
                    )
                &&& p.test_updates@.len() == 0
                &&& p.validation_steps@.len() == 1
                &&& p.validation_steps@[0]@ == "re-run unit tests"@
            },
    {
        let mut changes: Vec<FileChange> = Vec::new();
        let mut i: usize = 0;
        while i < analysis.affected_files.len()
            invariant
                i <= analysis.affected_files.len(),
                changes@.len() == i,
                forall|k: int|
                    0 <= k < i ==> is_planned_change(#[trigger] changes@[k], analysis.affected_files@[k]),
            decreases analysis.affected_files.len() - i,
        {
            changes.push(
                FileChange {
                    path: analysis.affected_files[i].clone(),
                    old_content: None,
                    new_content: String::new(),
                    change_type: ChangeType::Modify,
                },
            );
            i = i + 1;
        }
        let mut steps: Vec<String> = Vec::new();
        steps.push("re-run unit tests".to_string());
        Ok(FixPlan { task_id: task.id, changes, test_updates: Vec::new(), validation_steps: steps })
    }

    /// The files to write for `plan`: each change that is not a deletion.
    pub fn planned_writes(&self, plan: &FixPlan) -> (writes: Vec<FileWrite>)
        ensures
            writes_match(writes@, writes_of(plan.changes@)),
    {
        let mut writes: Vec<FileWrite> = Vec::new();
        let mut i: usize = 0;
        while i < plan.changes.len()
            invariant
                i <= plan.changes.len(),
                writes_match(writes@, writes_of(plan.changes@.take(i as int))),
            decreases plan.changes.len() - i,
        {
            let change = &plan.changes[i];
            proof {
                assert(plan.changes@.take(i + 1).drop_last() =~= plan.changes@.take(i as int));
            }
            match change.change_type {
                ChangeType::Create | ChangeType::Modify => {
                    writes.push(
                        FileWrite { path: change.path.clone(), content: change.new_content.clone() },
                    );
                },
                ChangeType::Delete => {},
            }
            i = i + 1;
        }
        proof {
            assert(plan.changes@.take(plan.changes.len() as int) =~= plan.changes@);
        }
        writes
    }

    /// Runs one test: a test not yet run counts as passing.
    pub fn run_test(&self, test_case: &TestCase) -> (res: Result<TestResult, AgentError>)
        ensures
            res matches Ok(r) && r.passed == (test_case.passed != Some(false)) && r.error.is_none()
                && r.output@ == Seq::<char>::empty(),
    {
        let passed = match test_case.passed {
            Some(p) => p,
            None => true,
        };
        Ok(TestResult { passed, error: None, output: String::new() })
    }

    /// Checks the task's tests; the first failed one is reported.
    pub fn validate_fix(&self, task: &AtomicTask) -> (res: Result<(), AgentError>)
        ensures
            match first_failing(task.test_cases@) {
                None => res is Ok,
                Some(i) => res matches Err(AgentError::ExecutionFailed(m)) && m@ == failure_message(
                    task.test_cases@[i],
                ),
            },
    {
        let mut i: usize = 0;
        while i < task.test_cases.len()
            invariant
                i <= task.test_cases.len(),
                first_failing(task.test_cases@.take(i as int)) is None,
            decreases task.test_cases.len() - i,
        {
            let test_case = &task.test_cases[i];
            proof {
                assert(task.test_cases@.take(i + 1).drop_last() =~= task.test_cases@.take(i as int));
            }
            let result = self.run_test(test_case);
            if let Ok(r) = result {
                if !r.passed {
                    let mut msg = "Test ".to_string();
                    msg.append(test_case.name.as_str());
                    msg.append(" failed: ");
                    let detail = match r.error {
                        Some(e) => e,
                        None => String::new(),
                    };
                    msg.append(detail.as_str());
                    proof {
                        lemma_first_failing_prefix(task.test_cases@, i as int);
                    }
                    return Err(AgentError::ExecutionFailed(msg));
                }
            }
            i = i + 1;
        }
        proof {
            assert(task.test_cases@.take(task.test_cases.len() as int) =~= task.test_cases@);
        }
        Ok(())
    }

    /// Starts the loop for `task`, which failed with `error_message`.
    pub fn fix_loop(&self, task: &AtomicTask, error_message: &str) -> (cmd: FixCommand)
        ensures
            fix_attempt_ok(cmd, self.max_retries(), 0, error_message@, *task),
    {
        self.attempt(task, 0, error_message.to_string())
    }

    /// Continues the loop once the requested write was made (`Ok`) or
    /// failed (`Err` with the tool's message).
    pub fn fix_loop_resume(&self, task: &AtomicTask, state: FixLoop, written: Result<(), String>) -> (cmd: FixCommand)
        ensures
            fix_resume_ok(cmd, state, written, *task),
    {
        proof {
            use_type_invariant(&state);
        }
        match written {
            Err(msg) => FixCommand::Finish(Err(AgentError::ExecutionFailed(msg))),
            Ok(()) => {
                let FixLoop { retry_count, max_retries, last_error, plan, writes, next } = state;
                assert(next < writes.len());
                if next + 1 < writes.len() {
                    let write = copy_write(&writes[next + 1]);
                    FixCommand::Write {
                        write,
                        state: FixLoop { retry_count, max_retries, last_error, plan, writes, next: next + 1 },
                    }
                } else {
                    let engine = SelfFixEngine { agent: self.agent, max_retries };
                    engine.end_round(task, retry_count, plan)
                }
            },
        }
    }

    /// The end of round `retry_count`, all of whose writes were made: the
    /// task's tests are checked; the loop succeeds, or goes on to the next
    /// round with the failure as the last error.
    fn end_round(&self, task: &AtomicTask, retry_count: usize, plan: FixPlan) -> (cmd: FixCommand)
        requires
            retry_count < self.max_retries,
        ensures
            round_end_ok(cmd, self.max_retries, retry_count as int, plan.changes@, *task),
        decreases self.max_retries - retry_count, 0int,
    {
        match self.validate_fix(task) {
            Ok(()) => FixCommand::Finish(
                Ok(FixResult { success: true, retries: retry_count + 1, changes: plan.changes }),
            ),
            Err(e) => {
                let next_error = e.message();
                self.attempt(task, retry_count + 1, next_error)
            },
        }
    }

    /// One round: give up when the bound is reached, else plan a fix and
    /// ask for its first write (a plan with nothing to write ends the round
    /// at once).
    fn attempt(&self, task: &AtomicTask, retry_count: usize, last_error: String) -> (cmd: FixCommand)
        ensures
            fix_attempt_ok(cmd, self.max_retries, retry_count as int, last_error@, *task),
        decreases self.max_retries - retry_count, 1int,
    {
        if retry_count < self.max_retries {
            let analysis = self.analyze_error(last_error.as_str(), task);
            match analysis {
                Ok(a) => {
                    let planned = self.generate_fix_plan(&a, task);
                    match planned {
                        Ok(plan) => {
                            let writes = self.planned_writes(&plan);
                            proof {
                                assert forall|i: int| 0 <= i < plan.changes@.len() implies (
                                #[trigger] plan.changes@[i]).change_type == ChangeType::Modify by {
                                    assert(is_planned_change(plan.changes@[i], a.affected_files@[i]));
                                }
                                lemma_writes_of_all_modify(plan.changes@);
                                assert forall|i: int| 0 <= i < plan.changes@.len() implies is_planned_change(
                                    #[trigger] plan.changes@[i],
                                    task.input_files@[i],
                                ) by {
                                    assert(is_planned_change(plan.changes@[i], a.affected_files@[i]));
                                    assert(a.affected_files@[i]@ == task.input_files@[i]@);
                                }
                            }
                            if writes.len() == 0 {
                                self.end_round(task, retry_count, plan)
                            } else {
                                let write = copy_write(&writes[0]);
                                FixCommand::Write {
                                    write,
                                    state: FixLoop {
                                        retry_count,
                                        max_retries: self.max_retries,
                                        last_error,
                                        plan,
                                        writes,
                                        next: 0,
                                    },
                                }
                            }
                        },
                        Err(e) => FixCommand::Finish(Err(e)),
                    }
                },
                Err(e) => FixCommand::Finish(Err(e)),
            }
        } else {
            FixCommand::Finish(Ok(FixResult { success: false, retries: retry_count, changes: Vec::new() }))
        }
    }
}

/// A copy of `w`.
fn copy_write(w: &FileWrite) -> (c: FileWrite)
    ensures
        same_write(c, *w),
{
    FileWrite { path: w.path.clone(), content: w.content.clone() }
}

/// The error a failed round passes on to the next: the validation failure
/// of the first failed test, as its message reads.
pub open spec fn round_error(task: AtomicTask) -> Seq<char> {
    "execution failed: "@ + failure_message(task.test_cases@[first_failing(task.test_cases@).unwrap()])
}

/// `cmd` is what follows round `retry_count` of `task` once all its writes
/// were made: the loop ends in success after this round, with `changes`,
/// when no test failed, or starts the next round with the failure as the
/// last error.
pub open spec fn round_end_ok(cmd: FixCommand, max_retries: usize, retry_count: int, changes: Seq<FileChange>, task: AtomicTask) -> bool
    decreases max_retries - retry_count, 0int,
{
    if first_failing(task.test_cases@) is None {
        cmd matches FixCommand::Finish(Ok(r)) && r.success && r.retries == retry_count + 1 && r.changes@
            == changes
    } else if retry_count < max_retries {
        fix_attempt_ok(cmd, max_retries, retry_count + 1, round_error(task), task)
    } else {
        false
    }
}

/// `cmd` is what a round numbered `retry_count` does for `task` under the
/// bound `max_retries`: past the bound it ends in failure after
/// `retry_count` rounds with no changes; otherwise it plans the rewrite of
/// every input file and asks for the first of its writes, or, with no input
/// file, ends the round at once.
pub open spec fn fix_attempt_ok(
    cmd: FixCommand,
    max_retries: usize,
    retry_count: int,
    last_error: Seq<char>,
    task: AtomicTask,
) -> bool
    decreases max_retries - retry_count, 1int,
{
    if retry_count < max_retries {
        if task.input_files@.len() == 0 {
            round_end_ok(cmd, max_retries, retry_count, Seq::empty(), task)
        } else {
            cmd matches FixCommand::Write { write, state } && {
                &&& state.retry_count() == retry_count
                &&& state.max_retries() == max_retries
                &&& state.last_error() == last_error
                &&& plan_matches(state.plan(), task)
                &&& writes_match(state.writes(), state.plan().changes@)
                &&& state.next() == 0
                &&& same_write(write, state.writes()[0])
            }
        }
    } else {
        cmd matches FixCommand::Finish(Ok(r)) && !r.success && r.retries == retry_count && r.changes@.len()
            == 0
    }
}

/// `cmd` is what follows the write requested in `state` once it was made
/// (`Ok`) or failed (`Err`): a failed write ends the loop with that error,
/// so no later write is requested; otherwise the round's next write is
/// requested, or, after its last one, the round ends.
pub open spec fn fix_resume_ok(cmd: FixCommand, state: FixLoop, written: Result<(), String>, task: AtomicTask) -> bool {
    match written {
        Err(msg) => cmd matches FixCommand::Finish(Err(AgentError::ExecutionFailed(m))) && m@ == msg@,
        Ok(()) => if state.next() + 1 < state.writes().len() {
            cmd matches FixCommand::Write { write, state: s } && {
                &&& s.retry_count() == state.retry_count()
                &&& s.max_retries() == state.max_retries()
                &&& s.last_error() == state.last_error()
                &&& s.plan() == state.plan()
                &&& s.writes() == state.writes()
                &&& s.next() == state.next() + 1
                &&& same_write(write, s.writes()[s.next()])
            }
        } else {
            round_end_ok(cmd, state.max_retries(), state.retry_count() as int, state.plan().changes@, task)
        },
    }
}

/// `cmd` asks, in round `r`, for write number `j`: the rewrite of input
/// file `j` of `task` to empty content.
pub open spec fn asks_write(cmd: FixCommand, max_retries: usize, r: int, j: int, task: AtomicTask) -> bool {
    cmd matches FixCommand::Write { write, state } && {
        &&& state.retry_count() == r
        &&& state.max_retries() == max_retries
        &&& state.next() == j
        &&& plan_matches(state.plan(), task)
        &&& writes_match(state.writes(), state.plan().changes@)
        &&& same_write(write, state.writes()[j])
        &&& write.path@ == task.input_files@[j]@
        &&& write.content@ == Seq::<char>::empty()
    }
}

/// A run of the loop in which every requested write succeeds: each step
/// but the last requests a write and is followed by what the loop does when
/// that write succeeds; the last step finishes the loop.
pub open spec fn run_with_successful_writes(cmds: Seq<FixCommand>, task: AtomicTask) -> bool {
    &&& cmds.len() >= 1
    &&& forall|k: int|
        0 <= k < cmds.len() - 1 ==> (#[trigger] cmds[k] matches FixCommand::Write { state, .. } && fix_resume_ok(
            cmds[k + 1],
            state,
            Ok(()),
            task,
        ))
    &&& cmds.last() is Finish
}

/// Within such a run, a round that starts at `cmds[p0]` asks at its `j`-th
/// step for the rewrite of input file `j`, and the step after its last
/// write ends the round.
proof fn lemma_round(
    task: AtomicTask,
    cmds: Seq<FixCommand>,
    max: usize,
    r: int,
    error: Seq<char>,
    p0: int,
    j: int,
)
    requires
        run_with_successful_writes(cmds, task),
        task.input_files@.len() > 0,
        0 <= r < max,
        0 <= p0 < cmds.len(),
        fix_attempt_ok(cmds[p0], max, r, error, task),
        0 <= j <= task.input_files@.len(),
    ensures
        p0 + j < cmds.len(),
        j < task.input_files@.len() ==> asks_write(cmds[p0 + j], max, r, j, task),
        j == task.input_files@.len() ==> asks_write(cmds[p0 + j - 1], max, r, j - 1, task) && round_end_ok(
            cmds[p0 + j],
            max,
            r,
            cmds[p0 + j - 1]->state.plan().changes@,
            task,
        ),
    decreases j,
{
    let n = task.input_files@.len() as int;
    if j == 0 {
        let c = cmds[p0];
        if let FixCommand::Write { write, state } = c {
            assert(is_planned_change(state.plan().changes@[0], task.input_files@[0]));
        }
    } else {
        lemma_round(task, cmds, max, r, error, p0, j - 1);
        let k = p0 + j - 1;
        let prev = cmds[k];
        assert(asks_write(prev, max, r, j - 1, task));
        assert(k < cmds.len() - 1) by {
            if k == cmds.len() - 1 {
                assert(cmds.last() == prev);
            }
        }
        assert(prev matches FixCommand::Write { state, .. } && fix_resume_ok(cmds[k + 1], state, Ok(()), task));
        assert(k + 1 == p0 + j);
        if let FixCommand::Write { write, state } = prev {
            assert(state.writes().len() == n);
            if j < n {
                let c = cmds[p0 + j];
                if let FixCommand::Write { write: w2, state: s2 } = c {
                    assert(s2.plan() == state.plan());
                    assert(is_planned_change(s2.plan().changes@[j], task.input_files@[j]));
                }
            }
        }
    }
}

/// A task with no input file and a test that stays failed gets no write
/// requested: the loop gives up at once after `max` rounds.
proof fn lemma_no_files_fail(cmd: FixCommand, max: usize, r: int, error: Seq<char>, task: AtomicTask)
    requires
        task.input_files@.len() == 0,
        first_failing(task.test_cases@) is Some,
        0 <= r <= max,
        fix_attempt_ok(cmd, max, r, error, task),
    ensures
        cmd matches FixCommand::Finish(Ok(res)) && !res.success && res.retries == max && res.changes@.len() == 0,
    decreases max - r,
{
    if r < max {
        lemma_no_files_fail(cmd, max, r + 1, round_error(task), task);
    }
}

/// In such a run on a task with a failing test, round `r` starts at step
/// `r * n`.
proof fn lemma_round_starts(task: AtomicTask, cmds: Seq<FixCommand>, error: Seq<char>, max: usize, r: int)
    requires
        first_failing(task.test_cases@) is Some,
        task.input_files@.len() > 0,
        run_with_successful_writes(cmds, task),
        fix_attempt_ok(cmds[0], max, 0, error, task),
        0 <= r <= max,
    ensures
        r * task.input_files@.len() < cmds.len(),
        fix_attempt_ok(
            cmds[r * task.input_files@.len()],
            max,
            r,
            if r == 0 { error } else { round_error(task) },
            task,
        ),
    decreases r,
{
    let n = task.input_files@.len() as int;
    if r > 0 {
        lemma_round_starts(task, cmds, error, max, r - 1);
        let p0 = (r - 1) * n;
        assert(p0 + n == r * n && 0 <= p0) by (nonlinear_arith)
            requires
                p0 == (r - 1) * n,
                n > 0,
                0 < r,
        ;
        lemma_round(task, cmds, max, r - 1, if r - 1 == 0 { error } else { round_error(task) }, p0, n);
    } else {
        assert(0 * n == 0) by (nonlinear_arith);
    }
}

/// The outcome of the loop when every write it requests succeeds, whatever
/// the error it started from: it succeeds exactly when none of the task's
/// tests failed. On success it made one round, rewriting every input file
/// in order to empty content, and reports those rewrites as its changes;
/// otherwise it made `max` rounds of the same writes and reports `max`
/// retries and no changes. Step `k` of the run is write number `k % n` of
/// round `k / n`, for a task with `n` input files.
pub proof fn lemma_fix_loop_outcome(task: AtomicTask, cmds: Seq<FixCommand>, error: Seq<char>, max: usize)
    requires
        max > 0,
        fix_attempt_ok(cmds[0], max, 0, error, task),
        run_with_successful_writes(cmds, task),
    ensures
        cmds.last() matches FixCommand::Finish(Ok(r)) && {
            &&& r.success == (first_failing(task.test_cases@) is None)
            &&& r.success ==> {
                &&& r.retries == 1
                &&& r.changes@.len() == task.input_files@.len()
                &&& forall|i: int|
                    0 <= i < r.changes@.len() ==> is_planned_change(#[trigger] r.changes@[i], task.input_files@[i])
            }
            &&& !r.success ==> r.retries == max && r.changes@.len() == 0
        },
        cmds.len() == (if first_failing(task.test_cases@) is None {
            task.input_files@.len() as int
        } else {
            max * task.input_files@.len()
        }) + 1,
        forall|k: int|
            0 <= k < cmds.len() - 1 ==> asks_write(
                #[trigger] cmds[k],
                max,
                k / task.input_files@.len() as int,
                k % task.input_files@.len() as int,
                task,
            ),
{
    let n = task.input_files@.len() as int;
    let last = cmds.len() - 1;
    if n == 0 {
        if first_failing(task.test_cases@) is Some {
            lemma_no_files_fail(cmds[0], max, 0, error, task);
        } else {
            assert(round_end_ok(cmds[0], max, 0, Seq::empty(), task));
        }
        assert(last == 0) by {
            if last > 0 {
                assert(cmds[0] matches FixCommand::Write { .. });
            }
        }
        assert(max * n == 0) by (nonlinear_arith)
            requires
                n == 0,
        ;
    } else if first_failing(task.test_cases@) is None {
        lemma_round(task, cmds, max, 0, error, 0, n);
        let prev = cmds[n - 1];
        assert(cmds[n] is Finish);
        assert(last == n) by {
            if n < last {
                assert(cmds[n] matches FixCommand::Write { .. });
            }
        }
        assert forall|k: int| 0 <= k < cmds.len() - 1 implies asks_write(#[trigger] cmds[k], max, k / n, k % n, task) by {
            assert(k / n == 0 && k % n == k) by (nonlinear_arith)
                requires
                    0 <= k < n,
            ;
            lemma_round(task, cmds, max, 0, error, 0, k);
        }
    } else {
        lemma_round_starts(task, cmds, error, max, max as int);
        let p = max * n;
        assert(cmds[p] is Finish);
        assert(last == p) by {
            if p < last {
                assert(cmds[p] matches FixCommand::Write { .. });
            }
        }
        assert forall|k: int| 0 <= k < cmds.len() - 1 implies asks_write(#[trigger] cmds[k], max, k / n, k % n, task) by {
            let r = k / n;
            let j = k % n;
            assert(k == r * n + j && 0 <= j < n && 0 <= r) by (nonlinear_arith)
                requires
                    n > 0,
                    k >= 0,
                    r == k / n,
                    j == k % n,
            ;
            assert(r < max) by (nonlinear_arith)
                requires
                    n > 0,
                    k == r * n + j,
                    0 <= j < n,
                    k < max * n,
                    0 <= r,
            ;
            lemma_round_starts(task, cmds, error, max, r);
            lemma_round(task, cmds, max, r, if r == 0 { error } else { round_error(task) }, r * n, j);
        }
    }
}


/// When no test failed among the first `i`, the `i`-th failing one is the first.
proof fn lemma_first_failing_prefix(tests: Seq<TestCase>, i: int)
    requires
        0 <= i < tests.len(),
        first_failing(tests.take(i)) is None,
        tests[i].passed == Some(false),
    ensures
        first_failing(tests) == Some(i),
{
    assert(tests.take(i + 1).drop_last() =~= tests.take(i));
    lemma_first_failing_extend(tests, i + 1);
}

/// A failure found in a prefix stays the first failure of the whole list.
proof fn lemma_first_failing_extend(tests: Seq<TestCase>, n: int)
    requires
        0 <= n <= tests.len(),
        first_failing(tests.take(n)) is Some,
    ensures
        first_failing(tests) == first_failing(tests.take(n)),
    decreases tests.len() - n,
{
    if n == tests.len() {
        assert(tests.take(n) =~= tests);
    } else {
        assert(tests.take(n + 1).drop_last() =~= tests.take(n));
        lemma_first_failing_extend(tests, n + 1);
    }
}

} // verus!
