//! The requests the surrounding command-line program hands to the commands,
//! as plain values.

use vstd::prelude::*;

use crate::changelog::ChangelogArgs;

verus! {

/// The request for tagging a set of repositories.
pub struct TagArgs {
    pub owner: String,
    pub repos: Vec<String>,
    pub branch: String,
    pub tag: String,
    pub message: Option<String>,
    pub create_version_file: bool,
    pub force: bool,
}

/// The request for the release pull requests.
pub struct PrArgs {
    pub owner: String,
    pub repo: String,
    pub branch: String,
    pub tag: String,
    pub message: Option<String>,
    pub dryrun: bool,
    pub merge: bool,
    pub hook: Option<String>,
    pub longhorn_chart_repo: Option<String>,
    pub longhorn_repos: Option<Vec<String>>,
}

/// The request for a release with a composed note.
pub struct ReleaseArgs {
    pub owner: String,
    pub repo: String,
    pub tag: String,
    pub milestone: String,
    pub branch: String,
    pub labels: Option<Vec<String>>,
    pub exclude_labels: Option<Vec<String>>,
    pub note_title: Option<String>,
    pub pre_note: Option<String>,
    pub post_note: Option<String>,
    pub note_section_labels: Option<Vec<String>>,
    pub note_contributors: Option<Vec<String>>,
    pub since_days: i64,
    pub filter_issue_hook: Option<String>,
    pub artifacts: Option<Vec<String>>,
    pub dryrun: bool,
    pub draft: bool,
    pub pre_release: bool,
    pub force: bool,
}

/// One invocation of the program.
pub enum Command {
    Changelog(ChangelogArgs),
    Pr(PrArgs),
    Release(ReleaseArgs),
    Tag(TagArgs),
}

/// The program's whole invocation: the command and the global switches.
pub struct Cli {
    pub command: Command,
    pub log_level: String,
    pub github_token: Option<String>,
}

} // verus!
