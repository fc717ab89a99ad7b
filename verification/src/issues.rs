//! Issue aggregation: milestone lookup, client-side filtering of search
//! pages, deduplication by issue id, and the external filter hook's
//! retain-list.

use vstd::prelude::*;

use crate::error::EngineError;
use crate::text::lines_of;
use crate::text::parse_u64;
use crate::text::parse_u64_spec;
use crate::text::split_lines;
use crate::text::str_eq;

verus! {

broadcast use vstd::set::group_set_axioms, vstd::seq_lib::group_seq_lib_default;

/// One milestone as the tracker reports it.
pub struct Milestone {
    pub number: u64,
    pub title: String,
}

/// One issue as the tracker reports it: identifier (unique per repository),
/// title, web address, label names, assignee handles, and when it was
/// closed, as seconds since the epoch.
pub struct Issue {
    pub number: u64,
    pub title: String,
    pub html_url: String,
    pub labels: Vec<String>,
    pub assignees: Vec<String>,
    pub closed_at: Option<i64>,
}

/// The number of the first milestone carrying `title`, if any.
pub open spec fn find_milestone_spec(ms: Seq<Milestone>, title: Seq<char>) -> Option<u64>
    decreases ms.len(),
{
    if ms.len() == 0 {
        None
    } else if ms[0].title@ == title {
        Some(ms[0].number)
    } else {
        find_milestone_spec(ms.drop_first(), title)
    }
}

/// Resolves a milestone title to the tracker's milestone number; fails with
/// `NotFound` when no milestone carries the title.
pub fn find_milestone(milestones: &Vec<Milestone>, title: &str) -> (r: Result<u64, EngineError>)
    ensures
        match r {
            Ok(n) => find_milestone_spec(milestones@, title@) == Some(n),
            Err(e) => find_milestone_spec(milestones@, title@) is None && e
                == EngineError::NotFound,
        },
{
    let n = milestones.len();
    let mut i: usize = 0;
    assert(milestones@.skip(0) =~= milestones@);
    while i < n
        invariant
            0 <= i <= n,
            n == milestones@.len(),
            find_milestone_spec(milestones@, title@) == find_milestone_spec(
                milestones@.skip(i as int),
                title@,
            ),
        decreases n - i,
    {
        assert(milestones@.skip(i as int)[0] == milestones@[i as int]);
        if str_eq(milestones[i].title.as_str(), title) {
            return Ok(milestones[i].number);
        }
        proof {
            assert(milestones@.skip(i as int).drop_first() =~= milestones@.skip(i as int + 1));
        }
        i = i + 1;
    }
    Err(EngineError::NotFound)
}

/// The issue was closed before the recency cutoff.
pub open spec fn closed_too_old(i: Issue, since: i64) -> bool {
    match i.closed_at {
        Some(t) => t < since,
        None => false,
    }
}

/// Some label of `labels` occurs in `set`.
pub open spec fn has_label_in(labels: Seq<Seq<char>>, set: Seq<Seq<char>>) -> bool {
    exists|k: int| 0 <= k < labels.len() && set.contains(#[trigger] labels[k])
}

/// An issue survives the client-side post-filter: not closed before the
/// cutoff and carrying no excluded label.
pub open spec fn issue_retained(i: Issue, exclude: Seq<Seq<char>>, since: i64) -> bool {
    !closed_too_old(i, since) && !has_label_in(i.labels.deep_view(), exclude)
}

/// The issues of a page that survive the post-filter, in page order.
pub open spec fn filtered_issues(s: Seq<Issue>, exclude: Seq<Seq<char>>, since: i64) -> Seq<Issue>
    decreases s.len(),
{
    if s.len() == 0 {
        Seq::empty()
    } else {
        let rest = filtered_issues(s.drop_last(), exclude, since);
        if issue_retained(s.last(), exclude, since) {
            rest.push(s.last())
        } else {
            rest
        }
    }
}

/// Whether `x` occurs in `v`.
pub fn contains_string(v: &Vec<String>, x: &str) -> (r: bool)
    ensures
        r == v.deep_view().contains(x@),
{
    let n = v.len();
    let mut i: usize = 0;
    while i < n
        invariant
            0 <= i <= n,
            n == v@.len(),
            forall|k: int| 0 <= k < i ==> v.deep_view()[k] != x@,
        decreases n - i,
    {
        if str_eq(v[i].as_str(), x) {
            assert(v.deep_view()[i as int] == x@);
            return true;
        }
        i = i + 1;
    }
    assert(forall|k: int| 0 <= k < v.deep_view().len() ==> v.deep_view()[k] != x@);
    false
}

/// Whether the issue carries any label of `set`.
fn has_any_label(labels: &Vec<String>, set: &Vec<String>) -> (r: bool)
    ensures
        r == has_label_in(labels.deep_view(), set.deep_view()),
{
    let n = labels.len();
    let mut i: usize = 0;
    while i < n
        invariant
            0 <= i <= n,
            n == labels@.len(),
            forall|k: int| 0 <= k < i ==> !set.deep_view().contains(#[trigger] labels.deep_view()[k]),
        decreases n - i,
    {
        if contains_string(set, labels[i].as_str()) {
            assert(set.deep_view().contains(labels.deep_view()[i as int]));
            return true;
        }
        i = i + 1;
    }
    false
}

/// Applies the client-side post-filter to one search page: drops issues
/// closed before `since` and issues carrying a label of `exclude`, keeping
/// page order.
pub fn filter_issue_page(page: Vec<Issue>, exclude: &Vec<String>, since: i64) -> (r: Vec<Issue>)
    ensures
        r@ == filtered_issues(page@, exclude.deep_view(), since),
{
    let ghost orig = page@;
    let mut page = page;
    let mut out: Vec<Issue> = Vec::new();
    let ghost done = Seq::<Issue>::empty();
    assert(orig =~= done + page@);
    while page.len() > 0
        invariant
            orig == done + page@,
            out@ == filtered_issues(done, exclude.deep_view(), since),
        decreases page@.len(),
    {
        let ghost prev_done = done;
        let it = page.remove(0);
        let keep = {
            let old_enough = match &it.closed_at {
                Some(t) => *t >= since,
                None => true,
            };
            old_enough && !has_any_label(&it.labels, exclude)
        };
        proof {
            done = prev_done.push(it);
            assert(done.drop_last() =~= prev_done);
            assert(orig =~= done + page@);
        }
        if keep {
            out.push(it);
        }
    }
    assert(done =~= orig);
    out
}

/// Membership in the set built from a sequence is membership in the
/// sequence.
proof fn lemma_to_set_contains<A>(s: Seq<A>, x: A)
    ensures
        s.to_set().contains(x) <==> s.contains(x),
{
}

/// A deduplicating registry of issue ids.  `claim` removes an id and reports
/// whether it was present, so an issue surfaced by both search passes is
/// consumed at most once.
pub struct IdSet {
    ids: Vec<u64>,
}

impl View for IdSet {
    type V = Set<u64>;

    closed spec fn view(&self) -> Set<u64> {
        self.ids@.to_set()
    }
}

impl IdSet {
    /// The registry holds each id once.
    pub closed spec fn wf(&self) -> bool {
        self.ids@.no_duplicates()
    }

    /// An empty registry.
    pub fn new() -> (r: IdSet)
        ensures
            r.wf(),
            r@ == Set::<u64>::empty(),
    {
        let r = IdSet { ids: Vec::new() };
        proof {
            assert(r.ids@.to_set() =~= Set::<u64>::empty());
        }
        r
    }

    /// How many ids are registered.
    pub fn len(&self) -> (r: usize)
        requires
            self.wf(),
        ensures
            r == self@.len(),
    {
        proof {
            self.ids@.unique_seq_to_set();
        }
        self.ids.len()
    }

    /// Whether `id` is registered.
    pub fn contains(&self, id: u64) -> (r: bool)
        ensures
            r == self@.contains(id),
    {
        let n = self.ids.len();
        let mut i: usize = 0;
        while i < n
            invariant
                0 <= i <= n,
                n == self.ids@.len(),
                forall|k: int| 0 <= k < i ==> self.ids@[k] != id,
            decreases n - i,
        {
            if self.ids[i] == id {
                assert(self.ids@.contains(id));
                return true;
            }
            i = i + 1;
        }
        assert(!self.ids@.contains(id));
        false
    }

    /// Registers `id`; registering a present id changes nothing.
    pub fn insert(&mut self, id: u64)
        requires
            old(self).wf(),
        ensures
            final(self).wf(),
            final(self)@ == old(self)@.insert(id),
    {
        if self.contains(id) {
            proof {
                assert(old(self)@.insert(id) =~= old(self)@);
            }
        } else {
            let ghost s = self.ids@;
            self.ids.push(id);
            proof {
                assert(forall|k: int| 0 <= k < s.len() ==> s[k] != id);
                assert forall|x: u64| self.ids@.to_set().contains(x) <==> s.to_set().insert(
                    id,
                ).contains(x) by {
                    if self.ids@.contains(x) {
                        let k = choose|k: int|
                            0 <= k < self.ids@.len() && self.ids@[k] == x;
                        if k < s.len() {
                            assert(s.contains(x));
                        }
                    }
                    if s.contains(x) {
                        let k = choose|k: int| 0 <= k < s.len() && s[k] == x;
                        assert(self.ids@[k] == x);
                    }
                    if x == id {
                        assert(self.ids@[s.len() as int] == id);
                    }
                }
                assert(self.ids@.to_set() =~= s.to_set().insert(id));
            }
        }
    }

    /// Unregisters `id` and reports whether it was present.  A claimed id
    /// cannot be claimed again: the registry shrinks by exactly the claims
    /// that report success.
    pub fn claim(&mut self, id: u64) -> (r: bool)
        requires
            old(self).wf(),
        ensures
            final(self).wf(),
            r == old(self)@.contains(id),
            final(self)@ == old(self)@.remove(id),
    {
        let ghost s = self.ids@;
        let n = self.ids.len();
        let mut i: usize = 0;
        while i < n
            invariant
                0 <= i <= n,
                n == self.ids@.len(),
                s == self.ids@,
                s == old(self).ids@,
                s.no_duplicates(),
                forall|k: int| 0 <= k < i ==> self.ids@[k] != id,
            decreases n - i,
        {
            if self.ids[i] == id {
                self.ids.remove(i);
                proof {
                    let j = i as int;
                    s.remove_ensures(j);
                    assert(self.ids@ == s.remove(j));
                    assert(s.contains(id));
                    lemma_to_set_contains(s, id);
                    assert forall|x: u64|
                        self.ids@.to_set().contains(x) <==> (s.to_set().contains(x) && x
                            != id) by {
                        lemma_to_set_contains(self.ids@, x);
                        lemma_to_set_contains(s, x);
                        if self.ids@.contains(x) {
                            let k = choose|k: int|
                                0 <= k < self.ids@.len() && self.ids@[k] == x;
                            if k < j {
                                assert(s.remove(j)[k] == s[k]);
                                assert(s.contains(x));
                                if x == id {
                                    assert(s[k] == id && s[j] == id && k != j);
                                    assert(false);
                                }
                            } else {
                                assert(s.remove(j)[k] == s[k + 1]);
                                assert(s.contains(x));
                                if x == id {
                                    assert(s[k + 1] == id && s[j] == id && k + 1 != j);
                                    assert(false);
                                }
                            }
                        }
                        if s.contains(x) && x != id {
                            let k = choose|k: int| 0 <= k < s.len() && s[k] == x;
                            assert(k != j);
                            if k < j {
                                assert(s.remove(j)[k] == s[k]);
                                assert(self.ids@.contains(x));
                            } else {
                                assert(s.remove(j)[k - 1] == s[k]);
                                assert(self.ids@.contains(x));
                            }
                        }
                    }
                    assert(self.ids@.to_set() =~= s.to_set().remove(id));
                    assert forall|a: int, b: int|
                        0 <= a < self.ids@.len() && 0 <= b < self.ids@.len() && a
                            != b implies self.ids@[a] != self.ids@[b] by {
                        if a < j {
                            assert(s.remove(j)[a] == s[a]);
                        } else {
                            assert(s.remove(j)[a] == s[a + 1]);
                        }
                        if b < j {
                            assert(s.remove(j)[b] == s[b]);
                        } else {
                            assert(s.remove(j)[b] == s[b + 1]);
                        }
                    }
                }
                return true;
            }
            i = i + 1;
        }
        proof {
            lemma_to_set_contains(s, id);
            assert(!s.to_set().contains(id));
            assert(s.to_set().remove(id) =~= s.to_set());
        }
        false
    }

    /// Keeps only the registered ids that `keep` lists.
    pub fn retain_listed(&mut self, keep: &Vec<u64>)
        requires
            old(self).wf(),
        ensures
            final(self).wf(),
            final(self)@ == old(self)@.intersect(keep@.to_set()),
    {
        let ghost s = self.ids@;
        let mut kept: Vec<u64> = Vec::new();
        let n = self.ids.len();
        let mut i: usize = 0;
        assert(kept@ =~= retained_ids(s.take(0), keep@));
        while i < n
            invariant
                0 <= i <= n,
                n == self.ids@.len(),
                s == self.ids@,
                kept@ == retained_ids(s.take(i as int), keep@),
            decreases n - i,
        {
            proof {
                assert(s.take(i as int + 1).drop_last() =~= s.take(i as int));
            }
            if contains_u64(keep, self.ids[i]) {
                let v = self.ids[i];
                kept.push(v);
            }
            i = i + 1;
        }
        assert(s.take(n as int) =~= s);
        proof {
            lemma_retained_ids(s, keep@);
        }
        self.ids = kept;
    }
}

/// The ids of `s` that `keep` lists, in order.
pub open spec fn retained_ids(s: Seq<u64>, keep: Seq<u64>) -> Seq<u64>
    decreases s.len(),
{
    if s.len() == 0 {
        Seq::empty()
    } else {
        let rest = retained_ids(s.drop_last(), keep);
        if keep.contains(s.last()) {
            rest.push(s.last())
        } else {
            rest
        }
    }
}

/// Retaining listed ids keeps the registry duplicate-free and leaves exactly
/// the intersection.
proof fn lemma_retained_ids(s: Seq<u64>, keep: Seq<u64>)
    requires
        s.no_duplicates(),
    ensures
        retained_ids(s, keep).no_duplicates(),
        retained_ids(s, keep).to_set() == s.to_set().intersect(keep.to_set()),
        forall|x: u64| retained_ids(s, keep).contains(x) ==> s.contains(x),
    decreases s.len(),
{
    if s.len() == 0 {
        assert(retained_ids(s, keep).to_set() =~= s.to_set().intersect(keep.to_set()));
    } else {
        let d = s.drop_last();
        assert(d.no_duplicates());
        lemma_retained_ids(d, keep);
        let r = retained_ids(s, keep);
        let rd = retained_ids(d, keep);
        assert(forall|x: u64| d.contains(x) ==> s.contains(x));
        if keep.contains(s.last()) {
            assert(!d.contains(s.last()));
            assert(!rd.contains(s.last()));
            assert(forall|k: int| 0 <= k < rd.len() ==> r[k] == rd[k]);
            assert forall|a: int, b: int|
                0 <= a < r.len() && 0 <= b < r.len() && a != b implies r[a] != r[b] by {
                if a < r.len() - 1 && b < r.len() - 1 {
                    assert(rd[a] == r[a] && rd[b] == r[b]);
                } else if a == r.len() - 1 {
                    assert(rd.contains(rd[b]) && r[a] == s.last());
                } else {
                    assert(rd.contains(rd[a]) && r[b] == s.last());
                }
            }
            assert forall|x: u64| r.to_set().contains(x) <==> s.to_set().contains(x)
                && keep.to_set().contains(x) by {
                lemma_to_set_contains(r, x);
                lemma_to_set_contains(rd, x);
                lemma_to_set_contains(s, x);
                lemma_to_set_contains(d, x);
                lemma_to_set_contains(keep, x);
                if r.contains(x) {
                    let k = choose|k: int| 0 <= k < r.len() && r[k] == x;
                    if k < r.len() - 1 {
                        assert(rd[k] == x && rd.contains(x));
                        assert(d.to_set().contains(x) && keep.to_set().contains(x));
                        assert(d.contains(x) ==> s.contains(x));
                    } else {
                        assert(x == s.last());
                        assert(s.contains(x));
                    }
                }
                if s.contains(x) && keep.contains(x) {
                    if x == s.last() {
                        assert(r[r.len() - 1] == x);
                        assert(r.contains(x));
                    } else {
                        let k = choose|k: int| 0 <= k < s.len() && s[k] == x;
                        assert(k < d.len() && d[k] == x);
                        assert(rd.to_set().contains(x));
                        let k2 = choose|k2: int| 0 <= k2 < rd.len() && rd[k2] == x;
                        assert(r[k2] == x);
                        assert(r.contains(x));
                    }
                }
            }
            assert(r.to_set() =~= s.to_set().intersect(keep.to_set()));
        } else {
            assert(r == rd);
            assert forall|x: u64| r.to_set().contains(x) <==> s.to_set().contains(x)
                && keep.to_set().contains(x) by {
                lemma_to_set_contains(r, x);
                lemma_to_set_contains(rd, x);
                lemma_to_set_contains(s, x);
                lemma_to_set_contains(d, x);
                lemma_to_set_contains(keep, x);
                if r.contains(x) {
                    assert(d.contains(x));
                    assert(s.contains(x));
                }
                if s.contains(x) && keep.contains(x) {
                    let k = choose|k: int| 0 <= k < s.len() && s[k] == x;
                    assert(x != s.last());
                    assert(k < d.len() && d[k] == x);
                    assert(d.contains(x));
                    assert(rd.to_set().contains(x));
                }
            }
            assert(r.to_set() =~= s.to_set().intersect(keep.to_set()));
        }
    }
}

/// The ids of a sequence of issues.
pub open spec fn ids_of(s: Seq<Issue>) -> Set<u64>
    decreases s.len(),
{
    if s.len() == 0 {
        Set::empty()
    } else {
        ids_of(s.drop_last()).insert(s.last().number)
    }
}

/// The running result of the two search passes: the ordered issue list,
/// which may surface an issue twice, and the id registry that downstream
/// sectioning claims from.
pub struct IssueAggregation {
    ids: IdSet,
    issues: Vec<Issue>,
}

impl IssueAggregation {
    /// The registered ids.
    pub closed spec fn spec_ids(&self) -> Set<u64> {
        self.ids@
    }

    /// The aggregated issues, in arrival order.
    pub closed spec fn spec_issues(&self) -> Seq<Issue> {
        self.issues@
    }

    /// The registry is duplicate-free.
    pub closed spec fn wf(&self) -> bool {
        self.ids.wf()
    }

    /// An empty aggregation.
    pub fn new() -> (r: IssueAggregation)
        ensures
            r.wf(),
            r.spec_ids() == Set::<u64>::empty(),
            r.spec_issues() == Seq::<Issue>::empty(),
    {
        IssueAggregation { ids: IdSet::new(), issues: Vec::new() }
    }

    /// Takes one filtered search page: registers every id and appends every
    /// issue, keeping arrival order.
    pub fn add_page(&mut self, page: Vec<Issue>)
        requires
            old(self).wf(),
        ensures
            final(self).wf(),
            final(self).spec_issues() == old(self).spec_issues() + page@,
            final(self).spec_ids() == old(self).spec_ids().union(ids_of(page@)),
    {
        let ghost orig = page@;
        let ghost old_ids = self.ids@;
        let ghost old_issues = self.issues@;
        let mut page = page;
        let ghost done = Seq::<Issue>::empty();
        proof {
            assert(orig =~= done + page@);
            assert(self.ids@ =~= old_ids.union(ids_of(done)));
        }
        while page.len() > 0
            invariant
                self.wf(),
                orig == done + page@,
                self.issues@ == old_issues + done,
                self.ids@ == old_ids.union(ids_of(done)),
            decreases page@.len(),
        {
            let ghost prev_done = done;
            let it = page.remove(0);
            let number = it.number;
            self.ids.insert(number);
            self.issues.push(it);
            proof {
                done = prev_done.push(it);
                assert(done.drop_last() =~= prev_done);
                assert(orig =~= done + page@);
                assert(ids_of(done) == ids_of(prev_done).insert(number));
                assert(self.ids@ =~= old_ids.union(ids_of(done)));
            }
        }
        assert(done =~= orig);
    }

    /// Hands out the id registry and the ordered issue list.
    pub fn into_parts(self) -> (r: (IdSet, Vec<Issue>))
        requires
            self.wf(),
        ensures
            r.0.wf(),
            r.0@ == self.spec_ids(),
            r.1@ == self.spec_issues(),
    {
        (self.ids, self.issues)
    }
}

/// The ids read from the hook's output lines, or nothing when a line is
/// unreadable.
pub open spec fn parse_id_lines_spec(lines: Seq<Seq<char>>) -> Option<Seq<u64>>
    decreases lines.len(),
{
    if lines.len() == 0 {
        Some(Seq::empty())
    } else {
        match (parse_id_lines_spec(lines.drop_last()), parse_u64_spec(lines.last())) {
            (Some(v), Some(n)) => Some(v.push(n)),
            _ => None,
        }
    }
}

/// The retain-list of an external filter hook: one issue id per output line.
pub open spec fn hook_retain_spec(text: Seq<char>) -> Option<Seq<u64>> {
    parse_id_lines_spec(lines_of(text))
}

/// One unreadable line spoils the whole retain-list.
proof fn lemma_parse_id_lines_none(lines: Seq<Seq<char>>, k: int)
    requires
        0 <= k < lines.len(),
        parse_u64_spec(lines[k]) is None,
    ensures
        parse_id_lines_spec(lines) is None,
    decreases lines.len(),
{
    if k == lines.len() - 1 {
    } else {
        assert(lines.drop_last()[k] == lines[k]);
        lemma_parse_id_lines_none(lines.drop_last(), k);
    }
}

/// Reads the external filter hook's output: one issue id per line.  Any
/// unreadable line is a hook failure, since a broken filter could silently
/// include or exclude issues incorrectly.
pub fn parse_hook_output(text: &str) -> (r: Result<Vec<u64>, EngineError>)
    ensures
        match r {
            Ok(v) => hook_retain_spec(text@) == Some(v@),
            Err(e) => hook_retain_spec(text@) is None && e == EngineError::HookFailure,
        },
{
    let lines = split_lines(text);
    let ghost lv = lines.deep_view();
    let mut out: Vec<u64> = Vec::new();
    let n = lines.len();
    let mut i: usize = 0;
    proof {
        assert(lv.take(0) =~= Seq::<Seq<char>>::empty());
    }
    while i < n
        invariant
            0 <= i <= n,
            n == lines@.len(),
            lv == lines.deep_view(),
            lv.len() == n,
            lv == lines_of(text@),
            parse_id_lines_spec(lv.take(i as int)) == Some(out@),
        decreases n - i,
    {
        assert(lv[i as int] == lines@[i as int]@);
        match parse_u64(lines[i].as_str()) {
            Some(v) => {
                out.push(v);
                proof {
                    assert(lv.take(i as int + 1).drop_last() =~= lv.take(i as int));
                    assert(lv.take(i as int + 1).last() == lv[i as int]);
                }
            },
            None => {
                proof {
                    lemma_parse_id_lines_none(lv, i as int);
                }
                return Err(EngineError::HookFailure);
            },
        }
        i = i + 1;
    }
    assert(lv.take(n as int) =~= lv);
    Ok(out)
}

/// The issues whose id the retain-list holds, in order.
pub open spec fn retained_issues(s: Seq<Issue>, keep: Seq<u64>) -> Seq<Issue>
    decreases s.len(),
{
    if s.len() == 0 {
        Seq::empty()
    } else {
        let rest = retained_issues(s.drop_last(), keep);
        if keep.contains(s.last().number) {
            rest.push(s.last())
        } else {
            rest
        }
    }
}

/// Applies the external filter hook's retain-list to the ordered issue
/// list: only issues whose id is listed stay, in order.
pub fn retain_issues(issues: Vec<Issue>, keep: &Vec<u64>) -> (r: Vec<Issue>)
    ensures
        r@ == retained_issues(issues@, keep@),
{
    let ghost orig = issues@;
    let mut issues = issues;
    let mut out: Vec<Issue> = Vec::new();
    let ghost done = Seq::<Issue>::empty();
    assert(orig =~= done + issues@);
    while issues.len() > 0
        invariant
            orig == done + issues@,
            out@ == retained_issues(done, keep@),
        decreases issues@.len(),
    {
        let ghost prev_done = done;
        let it = issues.remove(0);
        let keep_it = contains_u64(keep, it.number);
        proof {
            done = prev_done.push(it);
            assert(done.drop_last() =~= prev_done);
            assert(orig =~= done + issues@);
        }
        if keep_it {
            out.push(it);
        }
    }
    assert(done =~= orig);
    out
}

/// Whether `x` occurs in `v`.
pub fn contains_u64(v: &Vec<u64>, x: u64) -> (r: bool)
    ensures
        r == v@.contains(x),
{
    let n = v.len();
    let mut i: usize = 0;
    while i < n
        invariant
            0 <= i <= n,
            n == v@.len(),
            forall|k: int| 0 <= k < i ==> v@[k] != x,
        decreases n - i,
    {
        if v[i] == x {
            return true;
        }
        i = i + 1;
    }
    false
}

} // verus!
