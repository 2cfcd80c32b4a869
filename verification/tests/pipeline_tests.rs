use cc_agent::swarm::pipeline::{PipelineStage, ProjectArtifacts};

#[test]
fn first_and_failure_stages_have_no_prerequisites() {
    assert!(PipelineStage::Analyze.dependencies().is_empty());
    assert!(PipelineStage::Failed.dependencies().is_empty());
    assert_eq!(PipelineStage::Architect.dependencies(), vec![PipelineStage::Analyze]);
    assert_eq!(PipelineStage::Done.dependencies(), vec![PipelineStage::Learn]);
}

#[test]
fn review_waits_for_all_development() {
    assert_eq!(
        PipelineStage::ReviewCode.dependencies(),
        vec![PipelineStage::DevelopBackend, PipelineStage::DevelopFrontend, PipelineStage::DevelopDatabase]
    );
    assert_eq!(PipelineStage::Fix.dependencies(), vec![PipelineStage::TestUnit, PipelineStage::TestIntegration]);
    assert_eq!(PipelineStage::DevelopFrontend.dependencies(), vec![PipelineStage::Decompose]);
}

#[test]
fn only_development_stages_run_in_parallel() {
    let parallel: Vec<PipelineStage> = PipelineStage::all().into_iter().filter(|s| s.is_parallel()).collect();
    assert_eq!(
        parallel,
        vec![PipelineStage::DevelopBackend, PipelineStage::DevelopFrontend, PipelineStage::DevelopDatabase]
    );
}

#[test]
fn only_test_stages_have_self_fix() {
    let fixing: Vec<PipelineStage> = PipelineStage::all().into_iter().filter(|s| s.has_self_fix()).collect();
    assert_eq!(fixing, vec![PipelineStage::TestUnit, PipelineStage::TestIntegration, PipelineStage::TestE2E]);
}

#[test]
fn every_prerequisite_is_declared_earlier() {
    let all = PipelineStage::all();
    for (i, s) in all.iter().enumerate() {
        for d in s.dependencies() {
            let j = all.iter().position(|x| *x == d).unwrap();
            assert!(j < i);
        }
    }
}

#[test]
fn stage_names() {
    assert_eq!(PipelineStage::DevelopBackend.name(), "develop_backend");
    assert_eq!(PipelineStage::TestE2E.to_string(), "test_e2e");
    assert_eq!(PipelineStage::GitHubPush.name(), "github_push");
    assert_eq!(PipelineStage::from_name("deploy_prep"), Some(PipelineStage::DeployPrep));
    assert_eq!(PipelineStage::from_name("Deploy_Prep"), None);
    assert_eq!(PipelineStage::from_name(""), None);
}

#[test]
fn names_read_back_to_their_stage() {
    for s in PipelineStage::all() {
        assert_eq!(PipelineStage::from_name(s.name()), Some(s));
    }
}

#[test]
fn default_artifacts_are_empty() {
    let a = ProjectArtifacts::default();
    assert!(a.files.is_empty() && a.reports.is_empty());
}
