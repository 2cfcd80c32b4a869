use vstd::prelude::*;

verus! {

/// The stages a project moves through, from analysis to delivery.
#[derive(Debug, Clone, Copy, PartialEq, Eq, Hash, Structural)]
pub enum PipelineStage {
    Analyze,
    Architect,
    Decompose,
    DevelopBackend,
    DevelopFrontend,
    DevelopDatabase,
    ReviewCode,
    TestUnit,
    TestIntegration,
    Fix,
    Integrate,
    TestE2E,
    Cleanup,
    Format,
    DeployPrep,
    Docker,
    GitInit,
    GitCommit,
    GitHubPush,
    Summarize,
    Learn,
    Done,
    Failed,
}

/// The stages that must be finished before `s` may start.
pub open spec fn stage_dependencies(s: PipelineStage) -> Seq<PipelineStage> {
    match s {
        PipelineStage::Analyze => seq![],
        PipelineStage::Architect => seq![PipelineStage::Analyze],
        PipelineStage::Decompose => seq![PipelineStage::Architect],
        PipelineStage::DevelopBackend => seq![PipelineStage::Decompose],
        PipelineStage::DevelopFrontend => seq![PipelineStage::Decompose],
        PipelineStage::DevelopDatabase => seq![PipelineStage::Decompose],
        PipelineStage::ReviewCode => seq![
            PipelineStage::DevelopBackend,
            PipelineStage::DevelopFrontend,
            PipelineStage::DevelopDatabase,
        ],
        PipelineStage::TestUnit => seq![PipelineStage::ReviewCode],
        PipelineStage::TestIntegration => seq![PipelineStage::TestUnit],
        PipelineStage::Fix => seq![PipelineStage::TestUnit, PipelineStage::TestIntegration],
        PipelineStage::Integrate => seq![PipelineStage::TestIntegration],
        PipelineStage::TestE2E => seq![PipelineStage::Integrate],
        PipelineStage::Cleanup => seq![PipelineStage::TestE2E],
        PipelineStage::Format => seq![PipelineStage::Cleanup],
        PipelineStage::DeployPrep => seq![PipelineStage::Format],
        PipelineStage::Docker => seq![PipelineStage::DeployPrep],
        PipelineStage::GitInit => seq![PipelineStage::Docker],
        PipelineStage::GitCommit => seq![PipelineStage::GitInit],
        PipelineStage::GitHubPush => seq![PipelineStage::GitCommit],
        PipelineStage::Summarize => seq![PipelineStage::GitHubPush],
        PipelineStage::Learn => seq![PipelineStage::Summarize],
        PipelineStage::Done => seq![PipelineStage::Learn],
        PipelineStage::Failed => seq![],
    }
}

impl PipelineStage {
    /// The stages this one depends on, in the order they are listed.
    pub fn dependencies(&self) -> (deps: Vec<PipelineStage>)
        ensures
            deps@ == stage_dependencies(*self),
    {
        match self {
            PipelineStage::Analyze => vec![],
            PipelineStage::Architect => vec![PipelineStage::Analyze],
            PipelineStage::Decompose => vec![PipelineStage::Architect],
            PipelineStage::DevelopBackend | PipelineStage::DevelopFrontend
            | PipelineStage::DevelopDatabase => vec![PipelineStage::Decompose],
            PipelineStage::ReviewCode => vec![
                PipelineStage::DevelopBackend,
                PipelineStage::DevelopFrontend,
                PipelineStage::DevelopDatabase,
            ],
            PipelineStage::TestUnit => vec![PipelineStage::ReviewCode],
            PipelineStage::TestIntegration => vec![PipelineStage::TestUnit],
            PipelineStage::Fix => vec![PipelineStage::TestUnit, PipelineStage::TestIntegration],
            PipelineStage::Integrate => vec![PipelineStage::TestIntegration],
            PipelineStage::TestE2E => vec![PipelineStage::Integrate],
            PipelineStage::Cleanup => vec![PipelineStage::TestE2E],
            PipelineStage::Format => vec![PipelineStage::Cleanup],
            PipelineStage::DeployPrep => vec![PipelineStage::Format],
            PipelineStage::Docker => vec![PipelineStage::DeployPrep],
            PipelineStage::GitInit => vec![PipelineStage::Docker],
            PipelineStage::GitCommit => vec![PipelineStage::GitInit],
            PipelineStage::GitHubPush => vec![PipelineStage::GitCommit],
            PipelineStage::Summarize => vec![PipelineStage::GitHubPush],
            PipelineStage::Learn => vec![PipelineStage::Summarize],
            PipelineStage::Done => vec![PipelineStage::Learn],
            PipelineStage::Failed => vec![],
        }
    }
}

/// The name a stage is written as.
pub open spec fn stage_name(s: PipelineStage) -> Seq<char> {
    match s {
        PipelineStage::Analyze => "analyze"@,
        PipelineStage::Architect => "architect"@,
        PipelineStage::Decompose => "decompose"@,
        PipelineStage::DevelopBackend => "develop_backend"@,
        PipelineStage::DevelopFrontend => "develop_frontend"@,
        PipelineStage::DevelopDatabase => "develop_database"@,
        PipelineStage::ReviewCode => "review_code"@,
        PipelineStage::TestUnit => "test_unit"@,
        PipelineStage::TestIntegration => "test_integration"@,
        PipelineStage::Fix => "fix"@,
        PipelineStage::Integrate => "integrate"@,
        PipelineStage::TestE2E => "test_e2e"@,
        PipelineStage::Cleanup => "cleanup"@,
        PipelineStage::Format => "format"@,
        PipelineStage::DeployPrep => "deploy_prep"@,
        PipelineStage::Docker => "docker"@,
        PipelineStage::GitInit => "git_init"@,
        PipelineStage::GitCommit => "git_commit"@,
        PipelineStage::GitHubPush => "github_push"@,
        PipelineStage::Summarize => "summarize"@,
        PipelineStage::Learn => "learn"@,
        PipelineStage::Done => "done"@,
        PipelineStage::Failed => "failed"@,
    }
}

/// Position of a stage in the order the stages are declared.
pub open spec fn stage_rank(s: PipelineStage) -> nat {
    match s {
        PipelineStage::Analyze => 0,
        PipelineStage::Architect => 1,
        PipelineStage::Decompose => 2,
        PipelineStage::DevelopBackend => 3,
        PipelineStage::DevelopFrontend => 4,
        PipelineStage::DevelopDatabase => 5,
        PipelineStage::ReviewCode => 6,
        PipelineStage::TestUnit => 7,
        PipelineStage::TestIntegration => 8,
        PipelineStage::Fix => 9,
        PipelineStage::Integrate => 10,
        PipelineStage::TestE2E => 11,
        PipelineStage::Cleanup => 12,
        PipelineStage::Format => 13,
        PipelineStage::DeployPrep => 14,
        PipelineStage::Docker => 15,
        PipelineStage::GitInit => 16,
        PipelineStage::GitCommit => 17,
        PipelineStage::GitHubPush => 18,
        PipelineStage::Summarize => 19,
        PipelineStage::Learn => 20,
        PipelineStage::Done => 21,
        PipelineStage::Failed => 22,
    }
}

pub open spec fn spec_is_parallel(s: PipelineStage) -> bool {
    s == PipelineStage::DevelopBackend || s == PipelineStage::DevelopFrontend || s
        == PipelineStage::DevelopDatabase
}

pub open spec fn spec_has_self_fix(s: PipelineStage) -> bool {
    s == PipelineStage::TestUnit || s == PipelineStage::TestIntegration || s == PipelineStage::TestE2E
}

impl PipelineStage {
    /// The development stages, which may run side by side.
    pub fn is_parallel(&self) -> (b: bool)
        ensures
            b == spec_is_parallel(*self),
    {
        match self {
            PipelineStage::DevelopBackend | PipelineStage::DevelopFrontend
            | PipelineStage::DevelopDatabase => true,
            _ => false,
        }
    }

    /// The test stages, after which the self-fix loop runs on failure.
    pub fn has_self_fix(&self) -> (b: bool)
        ensures
            b == spec_has_self_fix(*self),
    {
        match self {
            PipelineStage::TestUnit | PipelineStage::TestIntegration | PipelineStage::TestE2E => true,
            _ => false,
        }
    }

    /// The name the stage is written as.
    pub fn name(&self) -> (n: &'static str)
        ensures
            n@ == stage_name(*self),
    {
        match self {
            PipelineStage::Analyze => "analyze",
            PipelineStage::Architect => "architect",
            PipelineStage::Decompose => "decompose",
            PipelineStage::DevelopBackend => "develop_backend",
            PipelineStage::DevelopFrontend => "develop_frontend",
            PipelineStage::DevelopDatabase => "develop_database",
            PipelineStage::ReviewCode => "review_code",
            PipelineStage::TestUnit => "test_unit",
            PipelineStage::TestIntegration => "test_integration",
            PipelineStage::Fix => "fix",
            PipelineStage::Integrate => "integrate",
            PipelineStage::TestE2E => "test_e2e",
            PipelineStage::Cleanup => "cleanup",
            PipelineStage::Format => "format",
            PipelineStage::DeployPrep => "deploy_prep",
            PipelineStage::Docker => "docker",
            PipelineStage::GitInit => "git_init",
            PipelineStage::GitCommit => "git_commit",
            PipelineStage::GitHubPush => "github_push",
            PipelineStage::Summarize => "summarize",
            PipelineStage::Learn => "learn",
            PipelineStage::Done => "done",
            PipelineStage::Failed => "failed",
        }
    }

    /// The name as an owned string.
    pub fn to_string(&self) -> (t: String)
        ensures
            t@ == stage_name(*self),
    {
        self.name().to_string()
    }

    /// Every stage, in declaration order.
    pub fn all() -> (stages: Vec<PipelineStage>)
        ensures
            stages@.len() == 23,
            forall|i: int| 0 <= i < 23 ==> stage_rank(#[trigger] stages@[i]) == i,
            forall|s: PipelineStage| #[trigger] stages@.contains(s),
    {
        let v = vec![
            PipelineStage::Analyze,
            PipelineStage::Architect,
            PipelineStage::Decompose,
            PipelineStage::DevelopBackend,
            PipelineStage::DevelopFrontend,
            PipelineStage::DevelopDatabase,
            PipelineStage::ReviewCode,
            PipelineStage::TestUnit,
            PipelineStage::TestIntegration,
            PipelineStage::Fix,
            PipelineStage::Integrate,
            PipelineStage::TestE2E,
            PipelineStage::Cleanup,
            PipelineStage::Format,
            PipelineStage::DeployPrep,
            PipelineStage::Docker,
            PipelineStage::GitInit,
            PipelineStage::GitCommit,
            PipelineStage::GitHubPush,
            PipelineStage::Summarize,
            PipelineStage::Learn,
            PipelineStage::Done,
            PipelineStage::Failed,
        ];
        proof {
            assert forall|s: PipelineStage| #[trigger] v@.contains(s) by {
                let i = stage_rank(s) as int;
                assert(v@[i] == s);
            }
        }
        v
    }

    /// The stage written as `text`, if there is one.
    pub fn from_name(text: &str) -> (r: Option<PipelineStage>)
        ensures
            match r {
                Some(s) => stage_name(s) == text@,
                None => forall|s: PipelineStage| stage_name(s) != text@,
            },
    {
        let wanted = text.to_string();
        let stages = PipelineStage::all();
        let mut i: usize = 0;
        while i < stages.len()
            invariant
                i <= stages.len(),
                wanted@ == text@,
                stages@.len() == 23,
                forall|s: PipelineStage| #[trigger] stages@.contains(s),
                forall|k: int| 0 <= k < i ==> stage_name(#[trigger] stages@[k]) != text@,
            decreases stages.len() - i,
        {
            let s = stages[i];
            if s.to_string() == wanted {
                return Some(s);
            }
            i = i + 1;
        }
        proof {
            assert forall|s: PipelineStage| stage_name(s) != text@ by {
                assert(stages@.contains(s));
                let k = choose|k: int| 0 <= k < stages@.len() && stages@[k] == s;
                assert(stage_name(stages@[k]) != text@);
            }
        }
        None
    }
}

/// Files and reports a project has produced.
#[derive(Debug, Clone)]
pub struct ProjectArtifacts {
    pub files: Vec<String>,
    pub reports: Vec<String>,
}

impl Default for ProjectArtifacts {
    fn default() -> (a: ProjectArtifacts)
        ensures
            a.files@.len() == 0,
            a.reports@.len() == 0,
    {
        ProjectArtifacts { files: Vec::new(), reports: Vec::new() }
    }
}

/// The outcome of a pipeline run. Ids are the 128-bit values of UUIDs.
#[derive(Debug, Clone)]
pub struct PipelineResult {
    pub project_id: u128,
    pub success: bool,
    pub final_stage: PipelineStage,
    pub stages_completed: Vec<PipelineStage>,
    pub stages_failed: Vec<PipelineStage>,
    pub total_tasks: usize,
    pub completed_tasks: usize,
    pub failed_tasks: usize,
    pub retry_count: usize,
    pub duration_secs: u64,
    pub artifacts: ProjectArtifacts,
    pub error_summary: Option<String>,
}

/// Every prerequisite of a stage comes earlier in the declared order, so the
/// prerequisites never form a cycle.
pub proof fn lemma_dependencies_precede(s: PipelineStage, d: PipelineStage)
    requires
        stage_dependencies(s).contains(d),
    ensures
        stage_rank(d) < stage_rank(s),
{
    let deps = stage_dependencies(s);
    let i = choose|i: int| 0 <= i < deps.len() && deps[i] == d;
    assert(stage_rank(deps[i]) < stage_rank(s));
}

/// Only the first stage and the failure stage have no prerequisites.
pub proof fn lemma_roots(s: PipelineStage)
    ensures
        (stage_dependencies(s).len() == 0) == (s == PipelineStage::Analyze || s == PipelineStage::Failed),
{
}

/// The parallel development stages all wait for the decomposition alone,
/// and the code review waits for every one of them.
pub proof fn lemma_parallel_stages(s: PipelineStage)
    requires
        spec_is_parallel(s),
    ensures
        stage_dependencies(s) == seq![PipelineStage::Decompose],
        stage_dependencies(PipelineStage::ReviewCode).contains(s),
{
    let r = stage_dependencies(PipelineStage::ReviewCode);
    if s == PipelineStage::DevelopBackend {
        assert(r[0] == s);
    } else if s == PipelineStage::DevelopFrontend {
        assert(r[1] == s);
    } else {
        assert(r[2] == s);
    }
}

/// No stage lists a prerequisite twice.
pub proof fn lemma_dependencies_distinct(s: PipelineStage)
    ensures
        stage_dependencies(s).no_duplicates(),
{
}

/// `Fix`, `Done` and `Failed` are nobody's prerequisite.
pub proof fn lemma_never_prerequisite(s: PipelineStage)
    ensures
        !stage_dependencies(s).contains(PipelineStage::Fix),
        !stage_dependencies(s).contains(PipelineStage::Done),
        !stage_dependencies(s).contains(PipelineStage::Failed),
{
    let deps = stage_dependencies(s);
    assert forall|i: int| 0 <= i < deps.len() implies deps[i] != PipelineStage::Fix && deps[i]
        != PipelineStage::Done && deps[i] != PipelineStage::Failed by {}
}

/// Step `i` of `c` goes from a stage to one of its prerequisites.
pub open spec fn prereq_step(c: Seq<PipelineStage>, i: int) -> bool {
    stage_dependencies(c[i]).contains(c[i + 1])
}

/// `s` needs `d` finished first, directly or through other stages: some
/// chain of prerequisites leads from `s` to `d`.
pub open spec fn transitively_requires(s: PipelineStage, d: PipelineStage) -> bool {
    exists|c: Seq<PipelineStage>|
        c.len() >= 2 && c[0] == s && c.last() == d && (forall|i: int| 0 <= i < c.len() - 1 ==> #[trigger] prereq_step(c, i))
}

/// The main chain of prerequisites, from `Done` back to `Analyze`.
spec fn done_chain() -> Seq<PipelineStage> {
    seq![
        PipelineStage::Done,
        PipelineStage::Learn,
        PipelineStage::Summarize,
        PipelineStage::GitHubPush,
        PipelineStage::GitCommit,
        PipelineStage::GitInit,
        PipelineStage::Docker,
        PipelineStage::DeployPrep,
        PipelineStage::Format,
        PipelineStage::Cleanup,
        PipelineStage::TestE2E,
        PipelineStage::Integrate,
        PipelineStage::TestIntegration,
        PipelineStage::TestUnit,
        PipelineStage::ReviewCode,
        PipelineStage::DevelopBackend,
        PipelineStage::Decompose,
        PipelineStage::Architect,
        PipelineStage::Analyze,
    ]
}

proof fn lemma_done_chain_steps()
    ensures
        forall|i: int| 0 <= i < done_chain().len() - 1 ==> #[trigger] prereq_step(done_chain(), i),
{
    let c = done_chain();
    assert forall|i: int| 0 <= i < c.len() - 1 implies #[trigger] prereq_step(c, i) by {
        assert(stage_dependencies(c[i])[0] == c[i + 1]);
    }
}

/// Finishing the project needs every stage except `Fix`, `Failed` and
/// `Done` itself.
pub proof fn lemma_done_requires(d: PipelineStage)
    ensures
        transitively_requires(PipelineStage::Done, d) == (d != PipelineStage::Fix && d != PipelineStage::Done
            && d != PipelineStage::Failed),
{
    if transitively_requires(PipelineStage::Done, d) {
        let c = choose|c: Seq<PipelineStage>|
            c.len() >= 2 && c[0] == PipelineStage::Done && c.last() == d && (forall|i: int|
                0 <= i < c.len() - 1 ==> #[trigger] prereq_step(c, i));
        assert(prereq_step(c, c.len() - 2));
        lemma_never_prerequisite(c[c.len() - 2]);
    }
    if d != PipelineStage::Fix && d != PipelineStage::Done && d != PipelineStage::Failed {
        let m = done_chain();
        lemma_done_chain_steps();
        if d == PipelineStage::DevelopFrontend || d == PipelineStage::DevelopDatabase {
            let c = m.take(15).push(d);
            assert forall|i: int| 0 <= i < c.len() - 1 implies #[trigger] prereq_step(c, i) by {
                if i < 14 {
                    assert(prereq_step(m, i));
                } else {
                    assert(c[i] == PipelineStage::ReviewCode);
                    let deps = stage_dependencies(c[i]);
                    if d == PipelineStage::DevelopFrontend {
                        assert(deps[1] == d);
                    } else {
                        assert(deps[2] == d);
                    }
                }
            }
            assert(c.len() >= 2 && c[0] == PipelineStage::Done && c.last() == d);
        } else {
            let k: int = if d == PipelineStage::Learn { 1 }
                else if d == PipelineStage::Summarize { 2 }
                else if d == PipelineStage::GitHubPush { 3 }
                else if d == PipelineStage::GitCommit { 4 }
                else if d == PipelineStage::GitInit { 5 }
                else if d == PipelineStage::Docker { 6 }
                else if d == PipelineStage::DeployPrep { 7 }
                else if d == PipelineStage::Format { 8 }
                else if d == PipelineStage::Cleanup { 9 }
                else if d == PipelineStage::TestE2E { 10 }
                else if d == PipelineStage::Integrate { 11 }
                else if d == PipelineStage::TestIntegration { 12 }
                else if d == PipelineStage::TestUnit { 13 }
                else if d == PipelineStage::ReviewCode { 14 }
                else if d == PipelineStage::DevelopBackend { 15 }
                else if d == PipelineStage::Decompose { 16 }
                else if d == PipelineStage::Architect { 17 }
                else { 18 };
            let c = m.take(k + 1);
            assert(c.last() == d);
            assert forall|i: int| 0 <= i < c.len() - 1 implies #[trigger] prereq_step(c, i) by {
                assert(prereq_step(m, i));
            }
        }
    }
}

/// Distinct stages have distinct names, so a name read back with
/// `from_name` gives the stage it was written from.
pub proof fn lemma_stage_names_distinct(a: PipelineStage, b: PipelineStage)
    requires
        stage_name(a) == stage_name(b),
    ensures
        a == b,
{
    reveal_strlit("analyze");
    reveal_strlit("architect");
    reveal_strlit("decompose");
    reveal_strlit("develop_backend");
    reveal_strlit("develop_frontend");
    reveal_strlit("develop_database");
    reveal_strlit("review_code");
    reveal_strlit("test_unit");
    reveal_strlit("test_integration");
    reveal_strlit("fix");
    reveal_strlit("integrate");
    reveal_strlit("test_e2e");
    reveal_strlit("cleanup");
    reveal_strlit("format");
    reveal_strlit("deploy_prep");
    reveal_strlit("docker");
    reveal_strlit("git_init");
    reveal_strlit("git_commit");
    reveal_strlit("github_push");
    reveal_strlit("summarize");
    reveal_strlit("learn");
    reveal_strlit("done");
    reveal_strlit("failed");
    let na = stage_name(a);
    let nb = stage_name(b);
    assert(na.len() == nb.len());
    assert(na[0] == nb[0]);
    assert(na[1] == nb[1]);
    if na.len() > 8 {
        assert(na[8] == nb[8]);
    }
}

/// Each stage is written as its variant name in snake case (`TestE2E` as
/// `test_e2e`, `GitHubPush` as `github_push`).
pub proof fn lemma_stage_name_table()
    ensures
        stage_name(PipelineStage::Analyze) == "analyze"@,
        stage_name(PipelineStage::Architect) == "architect"@,
        stage_name(PipelineStage::Decompose) == "decompose"@,
        stage_name(PipelineStage::DevelopBackend) == "develop_backend"@,
        stage_name(PipelineStage::DevelopFrontend) == "develop_frontend"@,
        stage_name(PipelineStage::DevelopDatabase) == "develop_database"@,
        stage_name(PipelineStage::ReviewCode) == "review_code"@,
        stage_name(PipelineStage::TestUnit) == "test_unit"@,
        stage_name(PipelineStage::TestIntegration) == "test_integration"@,
        stage_name(PipelineStage::Fix) == "fix"@,
        stage_name(PipelineStage::Integrate) == "integrate"@,
        stage_name(PipelineStage::TestE2E) == "test_e2e"@,
        stage_name(PipelineStage::Cleanup) == "cleanup"@,
        stage_name(PipelineStage::Format) == "format"@,
        stage_name(PipelineStage::DeployPrep) == "deploy_prep"@,
        stage_name(PipelineStage::Docker) == "docker"@,
        stage_name(PipelineStage::GitInit) == "git_init"@,
        stage_name(PipelineStage::GitCommit) == "git_commit"@,
        stage_name(PipelineStage::GitHubPush) == "github_push"@,
        stage_name(PipelineStage::Summarize) == "summarize"@,
        stage_name(PipelineStage::Learn) == "learn"@,
        stage_name(PipelineStage::Done) == "done"@,
        stage_name(PipelineStage::Failed) == "failed"@,
{
}

/// How many prerequisites each stage lists: none for `Analyze` and
/// `Failed`, the three development stages for `ReviewCode`, two for `Fix`,
/// and exactly one for every other stage.
pub proof fn lemma_dependency_counts(s: PipelineStage)
    ensures
        stage_dependencies(s).len() == (if s == PipelineStage::Analyze || s == PipelineStage::Failed {
            0nat
        } else if s == PipelineStage::ReviewCode {
            3nat
        } else if s == PipelineStage::Fix {
            2nat
        } else {
            1nat
        }),
{
}

/// Along a chain of prerequisites, every stage after the first comes no
/// later in the declared order than the second.
proof fn lemma_chain_ranks(c: Seq<PipelineStage>, j: int)
    requires
        forall|i: int| 0 <= i < c.len() - 1 ==> #[trigger] prereq_step(c, i),
        1 <= j < c.len(),
    ensures
        stage_rank(c[j]) <= stage_rank(c[1]),
    decreases j,
{
    if j > 1 {
        lemma_chain_ranks(c, j - 1);
        assert(prereq_step(c, j - 1));
        lemma_dependencies_precede(c[j - 1], c[j]);
    }
}

/// No stage but `Fix` lists a prerequisite that another of its listed
/// prerequisites already requires, directly or not: each lists only what
/// it needs directly. (`Fix` lists both `TestUnit` and `TestIntegration`,
/// though `TestIntegration` itself requires `TestUnit`.)
pub proof fn lemma_prerequisites_minimal(s: PipelineStage, d1: PipelineStage, d2: PipelineStage)
    requires
        s != PipelineStage::Fix,
        stage_dependencies(s).contains(d1),
        stage_dependencies(s).contains(d2),
        d1 != d2,
    ensures
        !transitively_requires(d1, d2),
{
    let deps = stage_dependencies(s);
    lemma_dependency_counts(s);
    let a = choose|i: int| 0 <= i < deps.len() && deps[i] == d1;
    let b = choose|i: int| 0 <= i < deps.len() && deps[i] == d2;
    assert(s == PipelineStage::ReviewCode);
    assert(stage_rank(d2) >= 3);
    if transitively_requires(d1, d2) {
        let c = choose|c: Seq<PipelineStage>|
            c.len() >= 2 && c[0] == d1 && c.last() == d2 && (forall|i: int|
                0 <= i < c.len() - 1 ==> #[trigger] prereq_step(c, i));
        assert(prereq_step(c, 0));
        assert(stage_dependencies(d1) == seq![PipelineStage::Decompose]);
        assert(c[1] == PipelineStage::Decompose);
        lemma_chain_ranks(c, c.len() - 1);
    }
}

/// `Fix` is the one stage listing a prerequisite that another of its
/// prerequisites already requires.
pub proof fn lemma_fix_prerequisites()
    ensures
        stage_dependencies(PipelineStage::Fix) == seq![PipelineStage::TestUnit, PipelineStage::TestIntegration],
        transitively_requires(PipelineStage::TestIntegration, PipelineStage::TestUnit),
{
    let c = seq![PipelineStage::TestIntegration, PipelineStage::TestUnit];
    assert(stage_dependencies(PipelineStage::TestIntegration)[0] == PipelineStage::TestUnit);
    assert(prereq_step(c, 0));
    assert(forall|i: int| 0 <= i < c.len() - 1 ==> #[trigger] prereq_step(c, i));
    assert(c.last() == PipelineStage::TestUnit);
}

} // verus!
