use renote::error::EngineError;
use renote::repo::GitCli;
use renote::tags::previous_tag;

fn strings(v: &[&str]) -> Vec<String> {
    v.iter().map(|s| s.to_string()).collect()
}

#[test]
fn previous_tag_empty_reference_public() {
    // newest-first tags with an empty reference: the newest public tag wins
    let tags = strings(&["v2.0.0", "v1.9.0", "v1.9.0-rc1"]);
    let r = previous_tag(&tags, "", true);
    assert_eq!(r, Ok("v2.0.0".to_string()));
}

#[test]
fn previous_tag_after_reference() {
    let tags = strings(&["v2.0.0", "v1.9.0"]);
    let r = previous_tag(&tags, "v2.0.0", false);
    assert_eq!(r, Ok("v1.9.0".to_string()));
}

#[test]
fn previous_tag_skips_pre_releases_when_public() {
    let tags = strings(&["v2.0.0", "v1.9.0-rc1", "v1.8.2"]);
    let r = previous_tag(&tags, "v2.0.0", true);
    assert_eq!(r, Ok("v1.8.2".to_string()));
}

#[test]
fn previous_tag_skips_unparseable_names_when_public() {
    // names that are no semantic version are classified as non-candidates,
    // never a panic
    let tags = strings(&["v2.0.0", "master-head", "weekly.2024", "v1.7.0"]);
    let r = previous_tag(&tags, "v2.0.0", true);
    assert_eq!(r, Ok("v1.7.0".to_string()));
}

#[test]
fn previous_tag_not_found() {
    let tags = strings(&["v2.0.0-rc2", "v2.0.0-rc1"]);
    let r = previous_tag(&tags, "", true);
    assert_eq!(r, Err(EngineError::NotFound));
    assert_eq!(
        r.unwrap_err().message(),
        "previous tag or milestone not found"
    );
}

#[test]
fn previous_tag_reference_missing() {
    // the reference is never seen, so scanning never starts
    let tags = strings(&["v2.0.0", "v1.9.0"]);
    let r = previous_tag(&tags, "v3.0.0", false);
    assert_eq!(r, Err(EngineError::NotFound));
}

#[test]
fn previous_tag_never_returns_reference() {
    let tags = strings(&["v2.0.0", "v1.9.0", "v1.8.0"]);
    let r = previous_tag(&tags, "v2.0.0", true).unwrap();
    assert_ne!(r, "v2.0.0");
}

#[test]
fn git_cli_resolves_previous_tag() {
    let git = GitCli::new("longhorn".to_string(), "longhorn-manager".to_string());
    assert_eq!(git.repo.repo_ref(), "longhorn/longhorn-manager");
    let tags = strings(&["v1.5.1", "v1.5.0"]);
    assert_eq!(
        git.previous_tag(&tags, "v1.5.1", true),
        Ok("v1.5.0".to_string())
    );
}
