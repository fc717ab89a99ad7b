//! Paginated commit-history scanning: locate the release tag's commit in a
//! newest-first history and collect every commit down to, but excluding, the
//! previous tag's commit.

use vstd::prelude::*;

use crate::text::is_prefix_of;
use crate::text::starts_with_str;

verus! {

/// One commit as the history reports it: full hash, message, optional
/// author handle, and the web address of the commit.
pub struct CommitRecord {
    pub sha: String,
    pub message: String,
    pub author: Option<String>,
    pub html_url: String,
}

/// A commit record the composers can render: the hash is long enough for a
/// short form and the message has at least one character.
pub open spec fn commit_renderable(c: CommitRecord) -> bool {
    c.sha@.len() >= 8 && c.message@.len() > 0
}

/// The scanner's abstract state: whether the tag commit has been seen,
/// whether the boundary commit ended the scan, and what was collected.
pub ghost struct ScanState {
    pub tag_found: bool,
    pub done: bool,
    pub out: Seq<CommitRecord>,
}

/// The scanner's initial state.
pub open spec fn scan_init() -> ScanState {
    ScanState { tag_found: false, done: false, out: Seq::empty() }
}

/// One commit arrives, newest first.  Before the tag commit is seen (by
/// hash prefix) nothing is recorded.  From the tag commit on, a commit whose
/// hash matches the previous tag's prefix ends the scan unrecorded (the
/// lower bound is open); every other commit is recorded.
pub open spec fn scan_step(
    st: ScanState,
    c: CommitRecord,
    tag_hash: Seq<char>,
    prev_hash: Seq<char>,
) -> ScanState {
    if st.done {
        st
    } else if !st.tag_found && !is_prefix_of(tag_hash, c.sha@) {
        st
    } else if is_prefix_of(prev_hash, c.sha@) {
        ScanState { tag_found: true, done: true, out: st.out }
    } else {
        ScanState { tag_found: true, done: false, out: st.out.push(c) }
    }
}

/// The state after scanning `commits` in order from the initial state.
pub open spec fn scan_seq(
    commits: Seq<CommitRecord>,
    tag_hash: Seq<char>,
    prev_hash: Seq<char>,
) -> ScanState
    decreases commits.len(),
{
    if commits.len() == 0 {
        scan_init()
    } else {
        scan_step(scan_seq(commits.drop_last(), tag_hash, prev_hash), commits.last(), tag_hash, prev_hash)
    }
}

/// Scans a commit history page by page.  The caller feeds pages as the
/// collaborator returns them and stops on an empty page, on an upstream
/// error, or when the boundary has been found; whatever was collected up to
/// that point is the (possibly incomplete) release window.
pub struct CommitScanner {
    tag_hash: String,
    prev_hash: String,
    tag_found: bool,
    done: bool,
    commits: Vec<CommitRecord>,
    history: Ghost<Seq<CommitRecord>>,
}

impl CommitScanner {
    /// The hash prefix that identifies the release tag's commit.
    pub closed spec fn spec_tag_hash(&self) -> Seq<char> {
        self.tag_hash@
    }

    /// The hash prefix that identifies the previous tag's commit.
    pub closed spec fn spec_prev_hash(&self) -> Seq<char> {
        self.prev_hash@
    }

    /// Every commit fed to the scanner so far, in arrival order.
    pub closed spec fn spec_history(&self) -> Seq<CommitRecord> {
        self.history@
    }

    /// The scanner's collected window and flags agree with the abstract scan
    /// of everything fed so far.
    pub closed spec fn wf(&self) -> bool {
        let st = scan_seq(self.history@, self.tag_hash@, self.prev_hash@);
        self.tag_found == st.tag_found && self.done == st.done && self.commits@ == st.out
    }

    /// Whether the boundary commit has been reached; no later page changes
    /// the collected window once it is set.
    pub open spec fn spec_done(&self) -> bool {
        scan_seq(self.spec_history(), self.spec_tag_hash(), self.spec_prev_hash()).done
    }

    /// Starts a scan for the window between `tag_hash` (inclusive) and
    /// `prev_hash` (exclusive), both hash prefixes.
    pub fn new(tag_hash: String, prev_hash: String) -> (r: CommitScanner)
        ensures
            r.wf(),
            r.spec_history() == Seq::<CommitRecord>::empty(),
            r.spec_tag_hash() == tag_hash@,
            r.spec_prev_hash() == prev_hash@,
    {
        CommitScanner {
            tag_hash,
            prev_hash,
            tag_found: false,
            done: false,
            commits: Vec::new(),
            history: Ghost(Seq::empty()),
        }
    }

    /// Whether the scan already hit the previous tag's commit.
    pub fn boundary_found(&self) -> (r: bool)
        requires
            self.wf(),
        ensures
            r == self.spec_done(),
    {
        self.done
    }

    /// Feeds the next page of the history, newest first.  After a completed
    /// scan further pages are ignored; otherwise every commit of the page is
    /// run through the scan.  Returns whether the boundary has been found.
    pub fn scan_page(&mut self, page: Vec<CommitRecord>) -> (r: bool)
        requires
            old(self).wf(),
        ensures
            final(self).wf(),
            final(self).spec_tag_hash() == old(self).spec_tag_hash(),
            final(self).spec_prev_hash() == old(self).spec_prev_hash(),
            final(self).spec_history() == if old(self).spec_done() {
                old(self).spec_history()
            } else {
                old(self).spec_history() + page@
            },
            r == final(self).spec_done(),
    {
        if self.done {
            return true;
        }
        let ghost pre = self.history@;
        let n = page.len();
        let mut i: usize = 0;
        while i < n
            invariant
                0 <= i <= n,
                n == page@.len(),
                self.wf(),
                self.spec_tag_hash() == old(self).spec_tag_hash(),
                self.spec_prev_hash() == old(self).spec_prev_hash(),
                self.history@ == pre + page@.take(i as int),
            decreases n - i,
        {
            let ghost st = scan_seq(self.history@, self.tag_hash@, self.prev_hash@);
            let c = &page[i];
            proof {
                assert((pre + page@.take(i as int + 1)).drop_last() =~= pre + page@.take(
                    i as int,
                ));
                assert((pre + page@.take(i as int + 1)).last() == page@[i as int]);
            }
            if !self.done {
                let tag_matches = starts_with_str(c.sha.as_str(), self.tag_hash.as_str());
                if !self.tag_found && !tag_matches {
                    // not yet inside the window
                } else if starts_with_str(c.sha.as_str(), self.prev_hash.as_str()) {
                    self.tag_found = true;
                    self.done = true;
                } else {
                    self.tag_found = true;
                    let copy = CommitRecord {
                        sha: c.sha.clone(),
                        message: c.message.clone(),
                        author: match &c.author {
                            Some(a) => Some(a.clone()),
                            None => None,
                        },
                        html_url: c.html_url.clone(),
                    };
                    assert(copy == page@[i as int]);
                    self.commits.push(copy);
                }
            }
            proof {
                self.history@ = pre + page@.take(i as int + 1);
            }
            i = i + 1;
        }
        assert(page@.take(n as int) =~= page@);
        self.done
    }

    /// The collected window: the commits from the tag commit down to, but
    /// excluding, the previous tag's commit, in history order.
    pub fn commits(&self) -> (r: &Vec<CommitRecord>)
        requires
            self.wf(),
        ensures
            r@ == scan_seq(self.spec_history(), self.spec_tag_hash(), self.spec_prev_hash()).out,
    {
        &self.commits
    }

    /// Gives up the scanner and hands back the collected window.
    pub fn into_commits(self) -> (r: Vec<CommitRecord>)
        requires
            self.wf(),
        ensures
            r@ == scan_seq(self.spec_history(), self.spec_tag_hash(), self.spec_prev_hash()).out,
    {
        self.commits
    }
}

/// No collected commit lies at or past the boundary: the previous tag's
/// commit (matched by hash prefix) is never part of the window.
pub proof fn lemma_scan_excludes_boundary(
    commits: Seq<CommitRecord>,
    tag_hash: Seq<char>,
    prev_hash: Seq<char>,
)
    ensures
        forall|k: int|
            0 <= k < scan_seq(commits, tag_hash, prev_hash).out.len() ==> !is_prefix_of(
                prev_hash,
                #[trigger] scan_seq(commits, tag_hash, prev_hash).out[k].sha@,
            ),
    decreases commits.len(),
{
    if commits.len() != 0 {
        lemma_scan_excludes_boundary(commits.drop_last(), tag_hash, prev_hash);
    }
}

/// The tag commit itself is always collected when it appears in the scanned
/// history and is not itself the boundary: the window's lower bound is open,
/// its upper bound closed.
pub proof fn lemma_scan_includes_tag_commit(
    commits: Seq<CommitRecord>,
    tag_hash: Seq<char>,
    prev_hash: Seq<char>,
    i: int,
)
    requires
        0 <= i < commits.len(),
        is_prefix_of(tag_hash, commits[i].sha@),
        forall|k: int| 0 <= k < i ==> !is_prefix_of(tag_hash, #[trigger] commits[k].sha@),
        !is_prefix_of(prev_hash, commits[i].sha@),
    ensures
        scan_seq(commits, tag_hash, prev_hash).out.contains(commits[i]),
    decreases commits.len(),
{
    let st = scan_seq(commits, tag_hash, prev_hash);
    let prev = scan_seq(commits.drop_last(), tag_hash, prev_hash);
    if i == commits.len() - 1 {
        // the tag commit is the last scanned commit: nothing before it
        // matched the tag prefix, so nothing was recorded and the scan is
        // not done yet
        lemma_scan_quiet_before_tag(commits.drop_last(), tag_hash, prev_hash);
        assert(forall|k: int|
            0 <= k < commits.drop_last().len() ==> !is_prefix_of(
                tag_hash,
                #[trigger] commits.drop_last()[k].sha@,
            ));
        assert(st.out.last() == commits[i]);
    } else {
        lemma_scan_includes_tag_commit(commits.drop_last(), tag_hash, prev_hash, i);
        let j = choose|j: int| 0 <= j < prev.out.len() && prev.out[j] == commits[i];
        assert(st.out.len() >= prev.out.len());
        assert(st.out[j] == commits[i]);
    }
}

/// While no commit matches the tag prefix, the scanner records nothing and
/// never finishes.
proof fn lemma_scan_quiet_before_tag(
    commits: Seq<CommitRecord>,
    tag_hash: Seq<char>,
    prev_hash: Seq<char>,
)
    requires
        forall|k: int| 0 <= k < commits.len() ==> !is_prefix_of(tag_hash, #[trigger] commits[k].sha@),
    ensures
        scan_seq(commits, tag_hash, prev_hash) == scan_init(),
    decreases commits.len(),
{
    if commits.len() != 0 {
        lemma_scan_quiet_before_tag(commits.drop_last(), tag_hash, prev_hash);
    }
}

} // verus!
