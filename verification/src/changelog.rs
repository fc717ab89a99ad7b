//! Changelog composition: render a collected commit window as a markdown
//! fragment, one bullet per commit, plain or collapsible.

use vstd::prelude::*;

use crate::commits::CommitRecord;
use crate::commits::commit_renderable;
use crate::text::first_line;
use crate::text::first_line_of;

verus! {

/// The request for a multi-repository changelog, as the caller hands it to
/// the surrounding command.
pub struct ChangelogArgs {
    pub owner: String,
    pub repos: Vec<String>,
    pub branch: String,
    pub tag: String,
    pub prev_tag: Option<String>,
    pub find_prev_tag: bool,
    pub since_days: i64,
    pub public: bool,
    pub markdown_folding: bool,
}

/// The author suffix of a bullet: `by @handle`, or nothing at all when the
/// commit reports no author.
pub open spec fn author_part(a: Option<String>) -> Seq<char> {
    match a {
        Some(h) => "by @"@ + h@,
        None => Seq::empty(),
    }
}

/// One commit's bullet: the first line of its message, its short hash as a
/// link to the commit's web address, and the author suffix.
pub open spec fn commit_line(c: CommitRecord) -> Seq<char> {
    "- "@ + first_line_of(c.message@) + " ["@ + c.sha@.take(8) + "]("@ + c.html_url@ + ") "@
        + author_part(c.author) + "\n"@
}

/// The bullets of a commit window, in window order.
pub open spec fn commit_lines(cs: Seq<CommitRecord>) -> Seq<char>
    decreases cs.len(),
{
    if cs.len() == 0 {
        Seq::empty()
    } else {
        commit_lines(cs.drop_last()) + commit_line(cs.last())
    }
}

/// A repository's whole fragment: the bullets wrapped in a collapsible block
/// titled with the repository name when `fold`, else under a level-3
/// heading.  An empty window still renders the wrapper with an empty body.
pub open spec fn fragment_of(repo: Seq<char>, cs: Seq<CommitRecord>, fold: bool) -> Seq<char> {
    if fold {
        "<details>\n<summary>"@ + repo + "</summary>\n\n"@ + commit_lines(cs) + "\n</details>\n"@
    } else {
        "### "@ + repo + "\n"@ + commit_lines(cs) + "\n"@
    }
}

/// Renders the bullets of `commits` in order.
fn render_commit_lines(commits: &Vec<CommitRecord>) -> (r: String)
    requires
        forall|k: int| 0 <= k < commits@.len() ==> commit_renderable(#[trigger] commits@[k]),
    ensures
        r@ == commit_lines(commits@),
{
    let n = commits.len();
    let mut body = String::new();
    let mut i: usize = 0;
    while i < n
        invariant
            0 <= i <= n,
            n == commits@.len(),
            forall|k: int| 0 <= k < commits@.len() ==> commit_renderable(#[trigger] commits@[k]),
            body@ == commit_lines(commits@.take(i as int)),
        decreases n - i,
    {
        let ghost pre = body@;
        let c = &commits[i];
        body.append("- ");
        body.append(first_line(c.message.as_str()));
        body.append(" [");
        let short = c.sha.as_str().substring_char(0, 8);
        assert(short@ =~= c.sha@.take(8));
        body.append(short);
        body.append("](");
        body.append(c.html_url.as_str());
        body.append(") ");
        match &c.author {
            Some(a) => {
                body.append("by @");
                body.append(a.as_str());
            },
            None => {},
        }
        body.append("\n");
        proof {
            assert(commits@.take(i as int + 1).drop_last() =~= commits@.take(i as int));
            assert(commits@.take(i as int + 1).last() == commits@[i as int]);
            assert(body@ =~= pre + commit_line(commits@[i as int]));
        }
        i = i + 1;
    }
    assert(commits@.take(n as int) =~= commits@);
    body
}

/// Composes the changelog fragment of one repository from its collected
/// commit window, newest first: one bullet per commit, wrapped as `fold`
/// asks.  An empty window still yields the titled wrapper.
pub fn compose_changelog(repo_name: &str, commits: &Vec<CommitRecord>, fold: bool) -> (r: String)
    requires
        forall|k: int| 0 <= k < commits@.len() ==> commit_renderable(#[trigger] commits@[k]),
    ensures
        r@ == fragment_of(repo_name@, commits@, fold),
{
    let body = render_commit_lines(commits);
    let mut out = String::new();
    if fold {
        out.append("<details>\n<summary>");
        out.append(repo_name);
        out.append("</summary>\n\n");
        out.append(body.as_str());
        out.append("\n</details>\n");
    } else {
        out.append("### ");
        out.append(repo_name);
        out.append("\n");
        out.append(body.as_str());
        out.append("\n");
    }
    assert(out@ =~= fragment_of(repo_name@, commits@, fold));
    out
}

} // verus!
