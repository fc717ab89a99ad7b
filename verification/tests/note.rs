use renote::issues::IdSet;
use renote::issues::Issue;
use renote::issues::IssueAggregation;
use renote::note::compose_release_note;
use renote::note::section_key;

fn strings(v: &[&str]) -> Vec<String> {
    v.iter().map(|s| s.to_string()).collect()
}

fn issue(number: u64, title: &str, url: &str, labels: &[&str], assignees: &[&str]) -> Issue {
    Issue {
        number,
        title: title.to_string(),
        html_url: url.to_string(),
        labels: strings(labels),
        assignees: strings(assignees),
        closed_at: None,
    }
}

#[test]
fn section_key_takes_last_path_segment() {
    assert_eq!(section_key("area/storage"), "storage");
    assert_eq!(section_key("kind/bug/fix"), "fix");
    assert_eq!(section_key("highlight"), "highlight");
    assert_eq!(section_key("trailing/"), "");
}

#[test]
fn issue_files_under_first_matching_label() {
    let mut ids = IdSet::new();
    ids.insert(7);
    let issues = vec![issue(
        7,
        "Fix storage bug",
        "https://g/o/r/issues/7",
        &["area/storage"],
        &["alice"],
    )];
    let note = compose_release_note(
        &mut ids,
        issues,
        &strings(&["area/storage", "area/network"]),
        &strings(&[]),
        "",
        "",
    );
    assert_eq!(
        note,
        "\n### Storage\n- Fix storage bug [7](https://g/o/r/issues/7) - @alice\n\n## Contributors\n- @alice \n"
    );
    assert_eq!(ids.len(), 0);
}

#[test]
fn issue_without_configured_label_goes_to_misc() {
    let mut ids = IdSet::new();
    ids.insert(3);
    let issues = vec![issue(3, "Odd one", "https://g/i/3", &["kind/chore"], &[])];
    let note = compose_release_note(
        &mut ids,
        issues,
        &strings(&["area/storage"]),
        &strings(&[]),
        "",
        "",
    );
    assert_eq!(
        note,
        "\n### Misc\n- Odd one [3](https://g/i/3) - \n\n## Contributors\n"
    );
}

#[test]
fn duplicate_issue_from_second_pass_is_filed_once() {
    // both search passes surfaced issue 42
    let mut agg = IssueAggregation::new();
    agg.add_page(vec![issue(42, "T", "https://g/i/42", &[], &["bob"])]);
    agg.add_page(vec![issue(42, "T", "https://g/i/42", &[], &["bob"])]);
    let (mut ids, issues) = agg.into_parts();
    assert_eq!(ids.len(), 1);
    assert_eq!(issues.len(), 2);
    let note = compose_release_note(&mut ids, issues, &strings(&[]), &strings(&[]), "", "");
    assert_eq!(note.matches("[42](").count(), 1);
    assert_eq!(note.matches("- @bob \n").count(), 1);
    assert_eq!(ids.len(), 0);
}

#[test]
fn compose_is_idempotent() {
    let build = || {
        let mut agg = IssueAggregation::new();
        agg.add_page(vec![
            issue(1, "A", "https://g/i/1", &["area/net"], &["zed"]),
            issue(2, "B", "https://g/i/2", &[], &["amy"]),
        ]);
        agg.into_parts()
    };
    let (mut ids1, issues1) = build();
    let (mut ids2, issues2) = build();
    let labels = strings(&["area/net"]);
    let extra = strings(&["carol"]);
    let n1 = compose_release_note(&mut ids1, issues1, &labels, &extra, "PRE\n", "POST\n");
    let n2 = compose_release_note(&mut ids2, issues2, &labels, &extra, "PRE\n", "POST\n");
    assert_eq!(n1, n2);
}

#[test]
fn contributors_are_sorted_and_deduplicated() {
    let mut ids = IdSet::new();
    ids.insert(1);
    ids.insert(2);
    let issues = vec![
        issue(1, "A", "https://g/i/1", &[], &["zed", "amy"]),
        issue(2, "B", "https://g/i/2", &[], &["amy"]),
    ];
    let note = compose_release_note(
        &mut ids,
        issues,
        &strings(&[]),
        &strings(&["zed"]),
        "",
        "",
    );
    let block = note.split("## Contributors\n").nth(1).unwrap();
    assert_eq!(block, "- @amy \n- @zed \n");
}

#[test]
fn pull_flavored_issues_feed_contributors_but_not_sections() {
    let mut ids = IdSet::new();
    ids.insert(9);
    ids.insert(10);
    let issues = vec![
        issue(9, "PR", "https://g/o/r/pull/9", &[], &["eve"]),
        issue(10, "Real", "https://g/o/r/issues/10", &[], &[]),
    ];
    let note = compose_release_note(&mut ids, issues, &strings(&[]), &strings(&[]), "", "");
    assert!(!note.contains("[9]("));
    assert!(note.contains("[10]("));
    assert!(note.contains("- @eve \n"));
}

#[test]
fn pre_and_post_note_frame_the_sections() {
    let mut ids = IdSet::new();
    ids.insert(1);
    let issues = vec![issue(1, "A", "https://g/i/1", &[], &[])];
    let note = compose_release_note(
        &mut ids,
        issues,
        &strings(&[]),
        &strings(&[]),
        "PRE\n",
        "POST\n",
    );
    assert_eq!(
        note,
        "PRE\n\n### Misc\n- A [1](https://g/i/1) - \nPOST\n\n## Contributors\n"
    );
}

#[test]
fn unregistered_issue_is_ignored() {
    let mut ids = IdSet::new();
    ids.insert(5);
    let issues = vec![
        issue(4, "Not aggregated", "https://g/i/4", &[], &[]),
        issue(5, "Aggregated", "https://g/i/5", &[], &[]),
    ];
    let note = compose_release_note(&mut ids, issues, &strings(&[]), &strings(&[]), "", "");
    assert!(!note.contains("[4]("));
    assert!(note.contains("[5]("));
}
