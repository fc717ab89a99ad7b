//! The repository handles the commands work on, and the operations the
//! surrounding command-line program implements over its subprocess plumbing.

use vstd::prelude::*;

use crate::error::EngineError;
use crate::tags;
use crate::tags::previous_tag_of;

verus! {

/// A repository, addressed as `owner/repo`.
pub struct GitRepo {
    pub owner: String,
    pub repo: String,
    pub repo_path: String,
}


impl GitRepo {
    /// The cached reference is the owner and the name joined by a slash.
    pub open spec fn wf(&self) -> bool {
        self.repo_path@ == self.owner@ + "/"@ + self.repo@
    }

    /// A handle for `owner/repo`.
    pub fn new(owner: String, repo: String) -> (r: GitRepo)
        ensures
            r.wf(),
            r.owner == owner,
            r.repo == repo,
    {
        let mut path = owner.clone();
        path.append("/");
        path.append(repo.as_str());
        GitRepo { owner, repo, repo_path: path }
    }

    /// The repository reference, `owner/repo`.
    pub fn repo_ref(&self) -> (r: &String)
        requires
            self.wf(),
        ensures
            r@ == self.owner@ + "/"@ + self.repo@,
    {
        &self.repo_path
    }
}

/// The source-control operations a command needs; the surrounding program
/// implements them over its subprocess plumbing, handing the library plain
/// values.
pub trait GitOperationTrait {
    fn clone_repo(&self, branch: &str) -> Result<(), EngineError>;

    fn create_tag(&self, tag: &str, message: Option<String>) -> Result<(), EngineError>;

    fn delete_tag(&self, tag: &str, force: bool) -> Result<(), EngineError>;

    fn tag_hash(&self, tag: &str, branch: &str) -> Result<String, EngineError>;

    fn tag_list(&self) -> Result<Vec<String>, EngineError>;
}

/// The issue-tracker operations a command needs.
pub trait GithubOperationTrait {
    fn create_pr(&self, msg: &str, tag: &str, branch: &str) -> Result<String, EngineError>;

    fn merge_pr(&self, id: &str) -> Result<(), EngineError>;
}

/// The verified command logic over one repository.
pub struct GitCli {
    pub repo: GitRepo,
}

impl GitCli {
    /// A handle for `owner/repo`.
    pub fn new(owner: String, repo: String) -> (r: GitCli)
        ensures
            r.repo.wf(),
            r.repo.owner == owner,
            r.repo.repo == repo,
    {
        GitCli { repo: GitRepo::new(owner, repo) }
    }

    /// Resolves the previous tag of `tag` from the repository's tags, which
    /// the caller hands over newest first.
    pub fn previous_tag(&self, tags: &Vec<String>, tag: &str, is_public: bool) -> (r: Result<
        String,
        EngineError,
    >)
        ensures
            match r {
                Ok(t) => previous_tag_of(tags.deep_view(), tag@, is_public) == Some(t@),
                Err(e) => previous_tag_of(tags.deep_view(), tag@, is_public) is None && e
                    == EngineError::NotFound,
            },
    {
        tags::previous_tag(tags, tag, is_public)
    }
}

/// The verified pull-request logic over one repository.
pub struct GithubCli {
    repo: GitRepo,
}

impl GithubCli {
    /// The repository worked on.
    pub closed spec fn spec_repo(&self) -> GitRepo {
        self.repo
    }

    /// A handle for `owner/repo`.
    pub fn new(owner: String, repo: String) -> (r: GithubCli)
        ensures
            r.spec_repo().wf(),
            r.spec_repo().owner == owner,
            r.spec_repo().repo == repo,
    {
        GithubCli { repo: GitRepo::new(owner, repo) }
    }

    /// The repository reference, `owner/repo`.
    pub fn repo_ref(&self) -> (r: &String)
        requires
            self.spec_repo().wf(),
        ensures
            r@ == self.spec_repo().owner@ + "/"@ + self.spec_repo().repo@,
    {
        self.repo.repo_ref()
    }
}

/// The commit message of a release commit: the caller's message, or
/// `release: <tag>` when none was given.
pub fn release_commit_message(msg: &str, tag: &str) -> (r: String)
    ensures
        msg@.len() == 0 ==> r@ == "release: "@ + tag@,
        msg@.len() > 0 ==> r@ == msg@,
{
    if msg.is_empty() {
        let mut out = String::new();
        out.append("release: ");
        out.append(tag);
        assert(out@ =~= "release: "@ + tag@);
        out
    } else {
        msg.to_owned()
    }
}

/// The branch a release pull request is pushed from: `pr-<tag>`.
pub fn fork_branch_name(tag: &str) -> (r: String)
    ensures
        r@ == "pr-"@ + tag@,
{
    let mut out = String::new();
    out.append("pr-");
    out.append(tag);
    assert(out@ =~= "pr-"@ + tag@);
    out
}

} // verus!
