use renote::error::EngineError;
use renote::repo::{GitRepo, GithubCli};

#[test]
fn repo_reference_joins_owner_and_name() {
    let repo = GitRepo::new("longhorn".to_string(), "longhorn-ui".to_string());
    assert_eq!(repo.owner, "longhorn");
    assert_eq!(repo.repo, "longhorn-ui");
    assert_eq!(repo.repo_ref(), "longhorn/longhorn-ui");
}

#[test]
fn github_cli_reference() {
    let gh = GithubCli::new("longhorn".to_string(), "charts".to_string());
    assert_eq!(gh.repo_ref(), "longhorn/charts");
}

#[test]
fn error_messages_name_the_failure() {
    assert_eq!(
        EngineError::UpstreamError.message(),
        "upstream query failed"
    );
    assert_eq!(
        EngineError::Incomplete.message(),
        "commit boundary not matched before pagination was exhausted"
    );
    assert_eq!(EngineError::HookFailure.message(), "issue filter hook failed");
}
