use renote::changelog::compose_changelog;
use renote::commits::CommitRecord;
use renote::commits::CommitScanner;

fn commit(sha: &str, message: &str, author: Option<&str>, url: &str) -> CommitRecord {
    CommitRecord {
        sha: sha.to_string(),
        message: message.to_string(),
        author: author.map(|a| a.to_string()),
        html_url: url.to_string(),
    }
}

fn window() -> Vec<CommitRecord> {
    // newest first; the tag commit is c2, the boundary commit is c1
    vec![
        commit("5555555500", "fix X", Some("amy"), "https://x/5"),
        commit("4444444400", "fix W", None, "https://x/4"),
        commit("3333333300", "fix V", Some("bob"), "https://x/3"),
        commit("2222222200", "release v2", Some("bob"), "https://x/2"),
        commit("1111111100", "release v1", None, "https://x/1"),
    ]
}

#[test]
fn scan_window_between_tags() {
    let mut scanner = CommitScanner::new("22222222".to_string(), "11111111".to_string());
    let stop = scanner.scan_page(window());
    assert!(stop);
    assert!(scanner.boundary_found());
    let commits = scanner.into_commits();
    assert_eq!(commits.len(), 1);
    assert_eq!(commits[0].sha, "2222222200");
}

#[test]
fn scan_collects_from_tag_until_boundary() {
    let mut scanner = CommitScanner::new("44444444".to_string(), "11111111".to_string());
    scanner.scan_page(window());
    let shas: Vec<&str> = scanner
        .commits()
        .iter()
        .map(|c| c.sha.as_str())
        .collect();
    assert_eq!(shas, vec!["4444444400", "3333333300", "2222222200"]);
}

#[test]
fn scan_without_boundary_is_incomplete() {
    // the boundary hash never matches: the scan degrades to a best-effort
    // window instead of failing
    let mut scanner = CommitScanner::new("44444444".to_string(), "00000000".to_string());
    let stop = scanner.scan_page(window());
    assert!(!stop);
    assert!(!scanner.boundary_found());
    assert_eq!(scanner.commits().len(), 4);
}

#[test]
fn scan_ignores_pages_after_boundary() {
    let mut scanner = CommitScanner::new("22222222".to_string(), "11111111".to_string());
    scanner.scan_page(window());
    scanner.scan_page(window());
    assert_eq!(scanner.commits().len(), 1);
}

#[test]
fn changelog_plain_fragment() {
    let mut scanner = CommitScanner::new("22222222".to_string(), "11111111".to_string());
    scanner.scan_page(window());
    let fragment = compose_changelog("o/r", scanner.commits(), false);
    assert_eq!(
        fragment,
        "### o/r\n- release v2 [22222222](https://x/2) by @bob\n\n"
    );
}

#[test]
fn changelog_folded_fragment() {
    let commits = vec![commit(
        "5555555500",
        "fix X\n\nlong body",
        None,
        "https://x/5",
    )];
    let fragment = compose_changelog("o/r", &commits, true);
    assert_eq!(
        fragment,
        "<details>\n<summary>o/r</summary>\n\n- fix X [55555555](https://x/5) \n\n</details>\n"
    );
}

#[test]
fn changelog_empty_window_keeps_wrapper() {
    let commits: Vec<CommitRecord> = vec![];
    assert_eq!(compose_changelog("o/r", &commits, false), "### o/r\n\n");
    assert_eq!(
        compose_changelog("o/r", &commits, true),
        "<details>\n<summary>o/r</summary>\n\n\n</details>\n"
    );
}

#[test]
fn changelog_strips_carriage_return_from_subject() {
    let commits = vec![commit("5555555500", "fix X\r\nrest", None, "https://x/5")];
    let fragment = compose_changelog("o/r", &commits, false);
    assert_eq!(fragment, "### o/r\n- fix X [55555555](https://x/5) \n\n");
}
