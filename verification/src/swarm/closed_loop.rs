//! The coordinator's run of a project, as a sequence of steps: each step
//! takes what the caller observed and says what the caller must do next
//! (publish a stage, read the artifacts, have the run summarised, or finish).

use vstd::prelude::*;

use crate::error::AgentError;
use crate::swarm::decomposer::{FeatureModule, TaskDecomposer};
use crate::swarm::pipeline::{PipelineResult, PipelineStage, ProjectArtifacts};

verus! {

/// The state of a project as seen from outside while it runs.
#[derive(Debug, Clone)]
pub struct PipelineStatus {
    pub project_id: u128,
    pub current_stage: PipelineStage,
    pub artifacts: ProjectArtifacts,
}

/// Where a run stands; each phase waits for one kind of event.
pub enum RunPhase {
    /// `Analyze` is being published; the requirement is kept.
    Analyzing { requirement: String },
    /// `Decompose` is being published; the modules are kept.
    Decomposing { modules: Vec<FeatureModule> },
    /// `Summarize` is being published; the number of tasks is kept.
    Summarizing { total_tasks: usize },
    /// The artifacts are being read.
    ReadingArtifacts { total_tasks: usize },
    /// The result is being summarised into lessons.
    Learning { result: PipelineResult },
    /// `Done` is being published.
    Finishing { result: PipelineResult },
    /// The run is over; nothing more is expected.
    Finished,
}

/// What the caller observed.
pub enum RunEvent {
    /// The requested stage is now the current stage.
    StagePublished,
    /// The project's artifacts as they are now.
    ArtifactsRead(ProjectArtifacts),
    /// The summary step completed, or failed.
    Summarized(Result<(), AgentError>),
}

/// What the caller must do next.
pub enum RunAction {
    /// Make this the current stage, then report `StagePublished`.
    Publish(PipelineStage),
    /// Read the artifacts, then report `ArtifactsRead`.
    ReadArtifacts,
    /// Summarise the result held in the phase (`RunPhase::Learning`), then
    /// report `Summarized`.
    Summarize,
    /// The run is over with this outcome.
    Finish(Result<PipelineResult, AgentError>),
}

/// A run of one project.
pub struct ProjectRun {
    pub project_id: u128,
    pub decomposer: TaskDecomposer,
    pub phase: RunPhase,
}

/// `event` is the kind of event `phase` waits for.
pub open spec fn expects(phase: RunPhase, event: RunEvent) -> bool {
    match phase {
        RunPhase::Analyzing { .. } | RunPhase::Decomposing { .. } | RunPhase::Summarizing { .. }
        | RunPhase::Finishing { .. } => event is StagePublished,
        RunPhase::ReadingArtifacts { .. } => event is ArtifactsRead,
        RunPhase::Learning { .. } => event is Summarized,
        RunPhase::Finished => false,
    }
}

/// The result of a run that went through, with `total` tasks planned and
/// the given artifacts.
pub open spec fn finished_result(r: PipelineResult, project_id: u128, total: usize, artifacts: ProjectArtifacts) -> bool {
    &&& r.project_id == project_id
    &&& r.success
    &&& r.final_stage == PipelineStage::Done
    &&& r.stages_completed@ == seq![PipelineStage::Analyze, PipelineStage::Decompose]
    &&& r.stages_failed@.len() == 0
    &&& r.total_tasks == total
    &&& r.completed_tasks == total
    &&& r.failed_tasks == 0
    &&& r.retry_count == 0
    &&& r.duration_secs == 0
    &&& r.artifacts == artifacts
    &&& r.error_summary.is_none()
}

/// `(post, action)` is what the run `pre` does on `event`: each phase does
/// its part of the work and asks for the next stage to be published, the
/// artifacts to be read, the result to be summarised, or finishes.
pub open spec fn run_step_ok(pre: ProjectRun, event: RunEvent, post: ProjectRun, action: RunAction) -> bool {
    &&& post.project_id == pre.project_id
    &&& post.decomposer == pre.decomposer
    &&& match pre.phase {
        RunPhase::Analyzing { .. } => {
            &&& action == RunAction::Publish(PipelineStage::Decompose)
            &&& post.phase matches RunPhase::Decomposing { modules }
            &&& modules@.len() == 0
        },
        RunPhase::Decomposing { modules } => action == RunAction::Publish(PipelineStage::Summarize) && (
        post.phase matches RunPhase::Summarizing { total_tasks } && total_tasks == modules@.len()),
        RunPhase::Summarizing { total_tasks } => action == RunAction::ReadArtifacts && post.phase == (
        RunPhase::ReadingArtifacts { total_tasks }),
        RunPhase::ReadingArtifacts { total_tasks } => action == RunAction::Summarize && (
        event matches RunEvent::ArtifactsRead(a) && post.phase matches RunPhase::Learning { result }
            && finished_result(result, pre.project_id, total_tasks, a)),
        RunPhase::Learning { result } => match event {
            RunEvent::Summarized(Ok(())) => action == RunAction::Publish(PipelineStage::Done) && post.phase
                == (RunPhase::Finishing { result }),
            RunEvent::Summarized(Err(e)) => action == RunAction::Finish(Err(e)) && post.phase is Finished,
            _ => false,
        },
        RunPhase::Finishing { result } => action == RunAction::Finish(Ok(result)) && post.phase is Finished,
        RunPhase::Finished => false,
    }
}

/// `(run, action)` is how a run of `project_id` on `requirement` starts.
pub open spec fn run_start_ok(
    run: ProjectRun,
    action: RunAction,
    project_id: u128,
    decomposer: TaskDecomposer,
    requirement: Seq<char>,
) -> bool {
    &&& run.project_id == project_id
    &&& run.decomposer == decomposer
    &&& run.phase matches RunPhase::Analyzing { requirement: r } && r@ == requirement
    &&& action == RunAction::Publish(PipelineStage::Analyze)
}

/// A run in which every stage gets published and the summary succeeds
/// publishes `Analyze`, `Decompose`, `Summarize` and `Done` in this order,
/// reads the artifacts once, has the result summarised once, and finishes
/// with a successful result for the project that holds those artifacts
/// (and no task, as no module is planned yet).
pub proof fn lemma_successful_run(
    runs: Seq<ProjectRun>,
    actions: Seq<RunAction>,
    events: Seq<RunEvent>,
    project_id: u128,
    decomposer: TaskDecomposer,
    requirement: Seq<char>,
    artifacts: ProjectArtifacts,
)
    requires
        runs.len() == 7,
        actions.len() == 7,
        events.len() == 6,
        run_start_ok(runs[0], actions[0], project_id, decomposer, requirement),
        forall|k: int| 0 <= k < 6 ==> run_step_ok(#[trigger] runs[k], events[k], runs[k + 1], actions[k + 1]),
        events[0] is StagePublished,
        events[1] is StagePublished,
        events[2] is StagePublished,
        events[3] == RunEvent::ArtifactsRead(artifacts),
        events[4] == RunEvent::Summarized(Ok(())),
        events[5] is StagePublished,
    ensures
        actions[0] == RunAction::Publish(PipelineStage::Analyze),
        actions[1] == RunAction::Publish(PipelineStage::Decompose),
        actions[2] == RunAction::Publish(PipelineStage::Summarize),
        actions[3] == RunAction::ReadArtifacts,
        actions[4] == RunAction::Summarize,
        actions[5] == RunAction::Publish(PipelineStage::Done),
        actions[6] matches RunAction::Finish(Ok(r)) && finished_result(r, project_id, 0, artifacts),
        runs[6].phase is Finished,
{
    assert(run_step_ok(runs[0], events[0], runs[1], actions[1]));
    assert(run_step_ok(runs[1], events[1], runs[2], actions[2]));
    assert(run_step_ok(runs[2], events[2], runs[3], actions[3]));
    assert(run_step_ok(runs[3], events[3], runs[4], actions[4]));
    assert(run_step_ok(runs[4], events[4], runs[5], actions[5]));
    assert(run_step_ok(runs[5], events[5], runs[6], actions[6]));
}

/// A run in which every stage gets published and the summary fails with
/// `error` publishes `Analyze`, `Decompose` and `Summarize` in this order,
/// reads the artifacts once, has the result summarised once, and finishes
/// with that error, so `Summarize` stays the last stage it published.
pub proof fn lemma_failed_summary_run(
    runs: Seq<ProjectRun>,
    actions: Seq<RunAction>,
    events: Seq<RunEvent>,
    project_id: u128,
    decomposer: TaskDecomposer,
    requirement: Seq<char>,
    error: AgentError,
)
    requires
        runs.len() == 6,
        actions.len() == 6,
        events.len() == 5,
        run_start_ok(runs[0], actions[0], project_id, decomposer, requirement),
        forall|k: int| 0 <= k < 5 ==> run_step_ok(#[trigger] runs[k], events[k], runs[k + 1], actions[k + 1]),
        events[0] is StagePublished,
        events[1] is StagePublished,
        events[2] is StagePublished,
        events[3] is ArtifactsRead,
        events[4] == RunEvent::Summarized(Err(error)),
    ensures
        actions[0] == RunAction::Publish(PipelineStage::Analyze),
        actions[1] == RunAction::Publish(PipelineStage::Decompose),
        actions[2] == RunAction::Publish(PipelineStage::Summarize),
        actions[3] == RunAction::ReadArtifacts,
        actions[4] == RunAction::Summarize,
        actions[5] == RunAction::Finish(Err(error)),
        runs[5].phase is Finished,
        runs[5].project_id == project_id,
{
    assert(run_step_ok(runs[0], events[0], runs[1], actions[1]));
    assert(run_step_ok(runs[1], events[1], runs[2], actions[2]));
    assert(run_step_ok(runs[2], events[2], runs[3], actions[3]));
    assert(run_step_ok(runs[3], events[3], runs[4], actions[4]));
    assert(run_step_ok(runs[4], events[4], runs[5], actions[5]));
}

/// The stage of the last `Publish` among `actions`, if any: the stage the
/// caller shows as current once it has carried them out.
pub open spec fn last_stage_published(actions: Seq<RunAction>) -> Option<PipelineStage>
    decreases actions.len(),
{
    if actions.len() == 0 {
        None
    } else {
        match actions.last() {
            RunAction::Publish(s) => Some(s),
            _ => last_stage_published(actions.drop_last()),
        }
    }
}

/// `runs`, `actions` and `events` are a whole run of project `project_id`
/// on `requirement`: it starts as `start` does, each event is the one its
/// phase waits for and is answered as `step` does, and the last action
/// finishes the run.
pub open spec fn whole_run(
    runs: Seq<ProjectRun>,
    actions: Seq<RunAction>,
    events: Seq<RunEvent>,
    project_id: u128,
    decomposer: TaskDecomposer,
    requirement: Seq<char>,
) -> bool {
    &&& runs.len() >= 1
    &&& actions.len() == runs.len()
    &&& events.len() == runs.len() - 1
    &&& run_start_ok(runs[0], actions[0], project_id, decomposer, requirement)
    &&& forall|k: int|
        0 <= k < events.len() ==> expects(#[trigger] runs[k].phase, events[k]) && run_step_ok(
            runs[k],
            events[k],
            runs[k + 1],
            actions[k + 1],
        )
    &&& actions.last() is Finish
}

/// How every run ends, whatever the caller observes: the run keeps its
/// project, and either succeeds after publishing `Done` last, with the
/// result for the artifacts it read, or fails with the error of the summary
/// step after publishing `Summarize` last.
pub proof fn lemma_run_outcome(
    runs: Seq<ProjectRun>,
    actions: Seq<RunAction>,
    events: Seq<RunEvent>,
    project_id: u128,
    decomposer: TaskDecomposer,
    requirement: Seq<char>,
)
    requires
        whole_run(runs, actions, events, project_id, decomposer, requirement),
    ensures
        runs.last().phase is Finished,
        runs.last().project_id == project_id,
        actions.last() matches RunAction::Finish(Ok(r)) ==> {
            &&& last_stage_published(actions) == Some(PipelineStage::Done)
            &&& actions.len() == 7
            &&& events[3] matches RunEvent::ArtifactsRead(a) && finished_result(r, project_id, 0, a)
        },
        actions.last() matches RunAction::Finish(Err(e)) ==> {
            &&& last_stage_published(actions) == Some(PipelineStage::Summarize)
            &&& actions.len() == 6
            &&& events[4] == RunEvent::Summarized(Err(e))
        },
{
    let last = runs.len() - 1;
    assert(last != 0) by {
        if last == 0 {
            assert(actions.last() == actions[0]);
        }
    }
    assert(expects(runs[0].phase, events[0]));
    assert(run_step_ok(runs[0], events[0], runs[1], actions[1]));
    assert(last != 1) by {
        if last == 1 {
            assert(actions.last() == actions[1]);
        }
    }
    assert(expects(runs[1].phase, events[1]));
    assert(run_step_ok(runs[1], events[1], runs[2], actions[2]));
    assert(last != 2) by {
        if last == 2 {
            assert(actions.last() == actions[2]);
        }
    }
    assert(expects(runs[2].phase, events[2]));
    assert(run_step_ok(runs[2], events[2], runs[3], actions[3]));
    assert(last != 3) by {
        if last == 3 {
            assert(actions.last() == actions[3]);
        }
    }
    assert(expects(runs[3].phase, events[3]));
    assert(run_step_ok(runs[3], events[3], runs[4], actions[4]));
    assert(last != 4) by {
        if last == 4 {
            assert(actions.last() == actions[4]);
        }
    }
    assert(expects(runs[4].phase, events[4]));
    assert(run_step_ok(runs[4], events[4], runs[5], actions[5]));
    assert(events[4] is Summarized);
    if events[4] matches RunEvent::Summarized(Ok(_)) {
        assert(last != 5) by {
            if last == 5 {
                assert(actions.last() == actions[5]);
            }
        }
        assert(expects(runs[5].phase, events[5]));
        assert(run_step_ok(runs[5], events[5], runs[6], actions[6]));
        assert(last == 6) by {
            if last > 6 {
                assert(expects(runs[6].phase, events[6]));
            }
        }
        assert(actions.last() == actions[6]);
        assert(actions.drop_last().last() == actions[5]);
        assert(last_stage_published(actions.drop_last()) == Some(PipelineStage::Done));
        assert(last_stage_published(actions) == Some(PipelineStage::Done));
        assert(actions.len() == 7);
        assert(events[3] matches RunEvent::ArtifactsRead(a) && runs[4].phase matches RunPhase::Learning { result }
            && finished_result(result, project_id, 0, a));
    } else {
        assert(last == 5) by {
            if last > 5 {
                assert(expects(runs[5].phase, events[5]));
            }
        }
        let a = actions;
        assert(a.last() == a[5]);
        assert(a.drop_last().last() == a[4]);
        assert(a.drop_last().drop_last().last() == a[3]);
        assert(a.drop_last().drop_last().drop_last().last() == a[2]);
        assert(last_stage_published(a.drop_last().drop_last().drop_last()) == Some(PipelineStage::Summarize));
        assert(last_stage_published(a.drop_last().drop_last()) == Some(PipelineStage::Summarize));
        assert(last_stage_published(a.drop_last()) == Some(PipelineStage::Summarize));
    }
}

impl ProjectRun {
    /// Starts the run of `project_id` on `requirement`: `Analyze` is
    /// published first.
    pub fn start(project_id: u128, decomposer: TaskDecomposer, requirement: &str) -> (res: (ProjectRun, RunAction))
        ensures
            run_start_ok(res.0, res.1, project_id, decomposer, requirement@),
    {
        (
            ProjectRun {
                project_id,
                decomposer,
                phase: RunPhase::Analyzing { requirement: requirement.to_string() },
            },
            RunAction::Publish(PipelineStage::Analyze),
        )
    }

    /// Whether `event` is the one the run waits for.
    pub fn accepts(&self, event: &RunEvent) -> (b: bool)
        ensures
            b == expects(self.phase, *event),
    {
        match (&self.phase, event) {
            (RunPhase::Analyzing { .. }, RunEvent::StagePublished) => true,
            (RunPhase::Decomposing { .. }, RunEvent::StagePublished) => true,
            (RunPhase::Summarizing { .. }, RunEvent::StagePublished) => true,
            (RunPhase::Finishing { .. }, RunEvent::StagePublished) => true,
            (RunPhase::ReadingArtifacts { .. }, RunEvent::ArtifactsRead(_)) => true,
            (RunPhase::Learning { .. }, RunEvent::Summarized(_)) => true,
            _ => false,
        }
    }

    /// Advances the run by one observed event.
    pub fn step(self, event: RunEvent) -> (res: (ProjectRun, RunAction))
        requires
            expects(self.phase, event),
        ensures
            run_step_ok(self, event, res.0, res.1),
    {
        let project_id = self.project_id;
        let decomposer = self.decomposer;
        match self.phase {
            RunPhase::Analyzing { requirement } => {
                let modules = decomposer.decompose_to_modules(requirement.as_str());
                match modules {
                    Ok(ms) => (
                        ProjectRun { project_id, decomposer, phase: RunPhase::Decomposing { modules: ms } },
                        RunAction::Publish(PipelineStage::Decompose),
                    ),
                    Err(e) => (
                        ProjectRun { project_id, decomposer, phase: RunPhase::Finished },
                        RunAction::Finish(Err(e)),
                    ),
                }
            },
            RunPhase::Decomposing { modules } => {
                let tasks = decomposer.decompose_modules(&modules);
                match tasks {
                    Ok(ts) => (
                        ProjectRun {
                            project_id,
                            decomposer,
                            phase: RunPhase::Summarizing { total_tasks: ts.len() },
                        },
                        RunAction::Publish(PipelineStage::Summarize),
                    ),
                    Err(e) => (
                        ProjectRun { project_id, decomposer, phase: RunPhase::Finished },
                        RunAction::Finish(Err(e)),
                    ),
                }
            },
            RunPhase::Summarizing { total_tasks } => (
                ProjectRun { project_id, decomposer, phase: RunPhase::ReadingArtifacts { total_tasks } },
                RunAction::ReadArtifacts,
            ),
            RunPhase::ReadingArtifacts { total_tasks } => {
                match event {
                    RunEvent::ArtifactsRead(artifacts) => {
                        let mut completed = Vec::new();
                        completed.push(PipelineStage::Analyze);
                        completed.push(PipelineStage::Decompose);
                        assert(completed@ =~= seq![PipelineStage::Analyze, PipelineStage::Decompose]);
                        let result = PipelineResult {
                            project_id,
                            success: true,
                            final_stage: PipelineStage::Done,
                            stages_completed: completed,
                            stages_failed: Vec::new(),
                            total_tasks,
                            completed_tasks: total_tasks,
                            failed_tasks: 0,
                            retry_count: 0,
                            duration_secs: 0,
                            artifacts,
                            error_summary: None,
                        };
                        (
                            ProjectRun { project_id, decomposer, phase: RunPhase::Learning { result } },
                            RunAction::Summarize,
                        )
                    },
                    _ => {
                        proof {
                            assert(false);
                        }
                        (
                            ProjectRun {
                                project_id,
                                decomposer,
                                phase: RunPhase::ReadingArtifacts { total_tasks },
                            },
                            RunAction::ReadArtifacts,
                        )
                    },
                }
            },
            RunPhase::Learning { result } => {
                match event {
                    RunEvent::Summarized(Ok(())) => (
                        ProjectRun { project_id, decomposer, phase: RunPhase::Finishing { result } },
                        RunAction::Publish(PipelineStage::Done),
                    ),
                    RunEvent::Summarized(Err(e)) => (
                        ProjectRun { project_id, decomposer, phase: RunPhase::Finished },
                        RunAction::Finish(Err(e)),
                    ),
                    _ => {
                        proof {
                            assert(false);
                        }
                        (
                            ProjectRun { project_id, decomposer, phase: RunPhase::Learning { result } },
                            RunAction::Summarize,
                        )
                    },
                }
            },
            RunPhase::Finishing { result } => (
                ProjectRun { project_id, decomposer, phase: RunPhase::Finished },
                RunAction::Finish(Ok(result)),
            ),
            RunPhase::Finished => {
                proof {
                    assert(false);
                }
                (ProjectRun { project_id, decomposer, phase: RunPhase::Finished }, RunAction::ReadArtifacts)
            },
        }
    }

    /// The result waiting to be summarised, when the run is at that step.
    pub fn summary_input(&self) -> (r: Option<&PipelineResult>)
        ensures
            match self.phase {
                RunPhase::Learning { result } => r == Some(&result),
                _ => r is None,
            },
    {
        match &self.phase {
            RunPhase::Learning { result } => Some(result),
            _ => None,
        }
    }
}

} // verus!
