use renote::error::EngineError;
use renote::issues::filter_issue_page;
use renote::issues::find_milestone;
use renote::issues::parse_hook_output;
use renote::issues::retain_issues;
use renote::issues::IdSet;
use renote::issues::Issue;
use renote::issues::Milestone;

fn strings(v: &[&str]) -> Vec<String> {
    v.iter().map(|s| s.to_string()).collect()
}

fn issue(number: u64, labels: &[&str], closed_at: Option<i64>) -> Issue {
    Issue {
        number,
        title: format!("issue {}", number),
        html_url: format!("https://g/i/{}", number),
        labels: strings(labels),
        assignees: vec![],
        closed_at,
    }
}

#[test]
fn milestone_lookup_by_title() {
    let milestones = vec![
        Milestone { number: 4, title: "v1.5.0".to_string() },
        Milestone { number: 9, title: "v1.5.1".to_string() },
    ];
    assert_eq!(find_milestone(&milestones, "v1.5.1"), Ok(9));
    assert_eq!(
        find_milestone(&milestones, "v9.9.9"),
        Err(EngineError::NotFound)
    );
}

#[test]
fn page_filter_drops_stale_and_excluded() {
    let page = vec![
        issue(1, &[], Some(100)),
        issue(2, &[], Some(99)),
        issue(3, &["wontfix"], None),
        issue(4, &["kind/bug"], None),
    ];
    let kept = filter_issue_page(page, &strings(&["wontfix"]), 100);
    let numbers: Vec<u64> = kept.iter().map(|i| i.number).collect();
    assert_eq!(numbers, vec![1, 4]);
}

#[test]
fn id_registry_claims_once() {
    let mut ids = IdSet::new();
    ids.insert(7);
    ids.insert(7);
    assert_eq!(ids.len(), 1);
    assert!(ids.contains(7));
    assert!(ids.claim(7));
    assert!(!ids.claim(7));
    assert_eq!(ids.len(), 0);
}

#[test]
fn hook_output_parses_one_id_per_line() {
    assert_eq!(parse_hook_output("42\n17\n"), Ok(vec![42, 17]));
    assert_eq!(parse_hook_output("42\r\n+17"), Ok(vec![42, 17]));
    assert_eq!(
        parse_hook_output("42\nnot-a-number\n"),
        Err(EngineError::HookFailure)
    );
}

#[test]
fn hook_retain_list_narrows_ids_and_issues() {
    let mut ids = IdSet::new();
    ids.insert(1);
    ids.insert(2);
    ids.insert(3);
    ids.retain_listed(&vec![2, 3, 99]);
    assert_eq!(ids.len(), 2);
    assert!(!ids.contains(1));
    let issues = vec![issue(1, &[], None), issue(2, &[], None), issue(3, &[], None)];
    let kept = retain_issues(issues, &vec![2, 3, 99]);
    let numbers: Vec<u64> = kept.iter().map(|i| i.number).collect();
    assert_eq!(numbers, vec![2, 3]);
}
