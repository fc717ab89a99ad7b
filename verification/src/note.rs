//! Release-note composition: bucket aggregated issues into ordered sections
//! by label taxonomy, collect and sort the contributor set, and assemble the
//! final note.

use vstd::prelude::*;

use crate::issues::IdSet;
use crate::issues::Issue;
use crate::text::contains_seq;
use crate::text::contains_str;
use crate::text::dec_str_of;
use crate::text::lex_leq;
use crate::text::push_dec;
use crate::text::str_eq;
use crate::text::str_lex_leq;

verus! {

/// The index of the last slash in `l`, if any.
pub open spec fn last_slash(l: Seq<char>) -> Option<int>
    decreases l.len(),
{
    if l.len() == 0 {
        None
    } else if l.last() == '/' {
        Some(l.len() - 1)
    } else {
        last_slash(l.drop_last())
    }
}

/// A label's section key: the substring after its last slash, or the label
/// itself when it has none.
pub open spec fn section_key_of(l: Seq<char>) -> Seq<char> {
    match last_slash(l) {
        Some(j) => l.subrange(j + 1, l.len() as int),
        None => l,
    }
}

/// `last_slash` is exactly the position of the last slash.
proof fn lemma_last_slash_at(l: Seq<char>, j: int)
    requires
        0 <= j < l.len(),
        l[j] == '/',
        forall|k: int| j < k < l.len() ==> l[k] != '/',
    ensures
        last_slash(l) == Some(j),
    decreases l.len(),
{
    if l.last() == '/' {
        assert(j == l.len() - 1);
    } else {
        let d = l.drop_last();
        assert(j < l.len() - 1);
        assert(forall|k: int| j < k < d.len() ==> d[k] == l[k] && l[k] != '/');
        lemma_last_slash_at(d, j);
    }
}

/// A label without a slash has no last slash.
proof fn lemma_no_slash(l: Seq<char>)
    requires
        forall|k: int| 0 <= k < l.len() ==> l[k] != '/',
    ensures
        last_slash(l) is None,
    decreases l.len(),
{
    if l.len() != 0 {
        lemma_no_slash(l.drop_last());
    }
}

/// Derives the section key of a label.
pub fn section_key(label: &str) -> (r: String)
    ensures
        r@ == section_key_of(label@),
{
    let len = label.unicode_len();
    let mut i: usize = len;
    while i > 0
        invariant
            0 <= i <= len,
            len == label@.len(),
            forall|k: int| i <= k < len ==> label@[k] != '/',
        decreases i,
    {
        if label.get_char(i - 1) == '/' {
            proof {
                lemma_last_slash_at(label@, i - 1);
            }
            let tail = label.substring_char(i, len);
            assert(tail@ == section_key_of(label@));
            return tail.to_owned();
        }
        i = i - 1;
    }
    proof {
        lemma_no_slash(label@);
    }
    label.to_owned()
}

/// One section of the note: a key and the issues filed under it, in filing
/// order.
pub struct Section {
    pub key: String,
    pub issues: Vec<Issue>,
}

impl View for Section {
    type V = (Seq<char>, Seq<Issue>);

    open spec fn view(&self) -> (Seq<char>, Seq<Issue>) {
        (self.key@, self.issues@)
    }
}

/// The note's sections, in render order: one per distinct section key of the
/// configured labels, then the reserved `misc` bucket.
pub struct Sections {
    entries: Vec<Section>,
}

/// The distinct section keys of the configured labels, in first-appearance
/// order.
pub open spec fn keys_acc(labels: Seq<Seq<char>>) -> Seq<Seq<char>>
    decreases labels.len(),
{
    if labels.len() == 0 {
        Seq::empty()
    } else {
        let rest = keys_acc(labels.drop_last());
        let k = section_key_of(labels.last());
        if rest.contains(k) {
            rest
        } else {
            rest.push(k)
        }
    }
}

/// Every section key, with the reserved `misc` bucket appended last unless a
/// label already produced it.
pub open spec fn all_section_keys(labels: Seq<Seq<char>>) -> Seq<Seq<char>> {
    let ks = keys_acc(labels);
    if ks.contains("misc"@) {
        ks
    } else {
        ks.push("misc"@)
    }
}

/// Empty sections for each key, in order.
pub open spec fn empty_sections(keys: Seq<Seq<char>>) -> Seq<(Seq<char>, Seq<Issue>)> {
    keys.map_values(|k: Seq<char>| (k, Seq::<Issue>::empty()))
}

impl Sections {
    /// The sections as key/issue-list pairs, in render order.
    pub closed spec fn view_spec(&self) -> Seq<(Seq<char>, Seq<Issue>)> {
        self.entries@.map_values(|s: Section| s@)
    }

    /// Builds the empty sections of the configured labels: one per distinct
    /// key, in order, with `misc` last.
    pub fn new(section_labels: &Vec<String>) -> (r: Sections)
        ensures
            r.view_spec() == empty_sections(all_section_keys(section_labels.deep_view())),
    {
        let ghost lv = section_labels.deep_view();
        let mut entries: Vec<Section> = Vec::new();
        let n = section_labels.len();
        let mut i: usize = 0;
        proof {
            assert(entries@.map_values(|s: Section| s@) =~= empty_sections(
                keys_acc(lv.take(0)),
            ));
        }
        while i < n
            invariant
                0 <= i <= n,
                n == section_labels@.len(),
                lv == section_labels.deep_view(),
                lv.len() == n,
                entries@.map_values(|s: Section| s@) == empty_sections(keys_acc(lv.take(i as int))),
            decreases n - i,
        {
            assert(lv[i as int] == section_labels@[i as int]@);
            let key = section_key(section_labels[i].as_str());
            let present = contains_key(&entries, key.as_str());
            proof {
                assert(lv.take(i as int + 1).drop_last() =~= lv.take(i as int));
                assert(lv.take(i as int + 1).last() == lv[i as int]);
                lemma_keys_of_empty_sections(entries@, keys_acc(lv.take(i as int)));
            }
            if !present {
                let ghost pre = entries@;
                entries.push(Section { key, issues: Vec::new() });
                proof {
                    assert(entries@.map_values(|s: Section| s@) =~= pre.map_values(
                        |s: Section| s@,
                    ).push((key@, Seq::<Issue>::empty())));
                    assert(entries@.map_values(|s: Section| s@) =~= empty_sections(
                        keys_acc(lv.take(i as int + 1)),
                    ));
                }
            } else {
                proof {
                    assert(entries@.map_values(|s: Section| s@) =~= empty_sections(
                        keys_acc(lv.take(i as int + 1)),
                    ));
                }
            }
            i = i + 1;
        }
        assert(lv.take(n as int) =~= lv);
        let present = contains_key(&entries, "misc");
        proof {
            lemma_keys_of_empty_sections(entries@, keys_acc(lv));
        }
        if !present {
            let ghost pre = entries@;
            entries.push(Section { key: String::from_str("misc"), issues: Vec::new() });
            proof {
                assert(entries@.map_values(|s: Section| s@) =~= pre.map_values(
                    |s: Section| s@,
                ).push(("misc"@, Seq::<Issue>::empty())));
                assert(entries@.map_values(|s: Section| s@) =~= empty_sections(
                    all_section_keys(lv),
                ));
            }
        } else {
            proof {
                assert(entries@.map_values(|s: Section| s@) =~= empty_sections(
                    all_section_keys(lv),
                ));
            }
        }
        Sections { entries }
    }
}

/// Whether some entry carries the key.
fn contains_key(entries: &Vec<Section>, key: &str) -> (r: bool)
    ensures
        r == keys_of(entries@.map_values(|s: Section| s@)).contains(key@),
{
    let n = entries.len();
    let mut i: usize = 0;
    while i < n
        invariant
            0 <= i <= n,
            n == entries@.len(),
            forall|k: int| 0 <= k < i ==> entries@[k]@.0 != key@,
        decreases n - i,
    {
        if str_eq(entries[i].key.as_str(), key) {
            assert(entries@.map_values(|s: Section| s@)[i as int].0 == key@);
            proof {
                lemma_keys_of_contains(entries@.map_values(|s: Section| s@), i as int);
            }
            return true;
        }
        i = i + 1;
    }
    proof {
        lemma_keys_of_not_contains(entries@.map_values(|s: Section| s@), key@);
    }
    false
}

/// The keys of a section list, in order.
pub open spec fn keys_of(secs: Seq<(Seq<char>, Seq<Issue>)>) -> Seq<Seq<char>> {
    secs.map_values(|e: (Seq<char>, Seq<Issue>)| e.0)
}

/// A key at some entry is among the keys.
proof fn lemma_keys_of_contains(secs: Seq<(Seq<char>, Seq<Issue>)>, i: int)
    requires
        0 <= i < secs.len(),
    ensures
        keys_of(secs).contains(secs[i].0),
{
    assert(keys_of(secs)[i] == secs[i].0);
}

/// A key at no entry is among no keys.
proof fn lemma_keys_of_not_contains(secs: Seq<(Seq<char>, Seq<Issue>)>, key: Seq<char>)
    requires
        forall|k: int| 0 <= k < secs.len() ==> (#[trigger] secs[k]).0 != key,
    ensures
        !keys_of(secs).contains(key),
{
    assert(forall|k: int| 0 <= k < keys_of(secs).len() ==> #[trigger] keys_of(secs)[k] == secs[k].0);
}

/// The keys of empty sections are their key list.
proof fn lemma_keys_of_empty_sections(entries: Seq<Section>, keys: Seq<Seq<char>>)
    requires
        entries.map_values(|s: Section| s@) == empty_sections(keys),
    ensures
        keys_of(entries.map_values(|s: Section| s@)) == keys,
{
    assert(keys_of(entries.map_values(|s: Section| s@)) =~= keys);
}

/// The order is reflexive.
proof fn lemma_lex_refl(a: Seq<char>)
    ensures
        lex_leq(a, a),
    decreases a.len(),
{
    if a.len() != 0 {
        lemma_lex_refl(a.drop_first());
    }
}

/// Insertion into a sorted name list: before the first name that does not
/// sort below `x`; a name equal to `x` is not inserted again.
pub open spec fn sorted_insert(s: Seq<Seq<char>>, x: Seq<char>) -> Seq<Seq<char>>
    decreases s.len(),
{
    if s.len() == 0 {
        seq![x]
    } else if s[0] == x {
        s
    } else if lex_leq(x, s[0]) {
        seq![x] + s
    } else {
        seq![s[0]] + sorted_insert(s.drop_first(), x)
    }
}

/// Every name of `xs` inserted into `s`, in order.
pub open spec fn insert_all(s: Seq<Seq<char>>, xs: Seq<Seq<char>>) -> Seq<Seq<char>>
    decreases xs.len(),
{
    if xs.len() == 0 {
        s
    } else {
        sorted_insert(insert_all(s, xs.drop_last()), xs.last())
    }
}

/// Where the scan for the insertion position stops determines the result:
/// the element is dropped when already present there, else inserted there.
proof fn lemma_sorted_insert_at(s: Seq<Seq<char>>, x: Seq<char>, i: int)
    requires
        0 <= i <= s.len(),
        forall|k: int| 0 <= k < i ==> !lex_leq(x, #[trigger] s[k]),
        i < s.len() ==> lex_leq(x, s[i]),
    ensures
        i < s.len() && s[i] == x ==> sorted_insert(s, x) == s,
        i < s.len() && s[i] != x ==> sorted_insert(s, x) == s.insert(i, x),
        i == s.len() ==> sorted_insert(s, x) == s.insert(i, x),
    decreases s.len(),
{
    lemma_lex_refl(x);
    if s.len() == 0 {
        assert(sorted_insert(s, x) =~= s.insert(0, x));
    } else if i == 0 {
        if s[0] == x {
        } else {
            assert(sorted_insert(s, x) =~= s.insert(0, x));
        }
    } else {
        assert(!lex_leq(x, s[0]));
        assert(s[0] != x);
        let d = s.drop_first();
        assert(forall|k: int| 0 <= k < i - 1 ==> d[k] == s[k + 1] && !lex_leq(x, s[k + 1]));
        lemma_sorted_insert_at(d, x, i - 1);
        if i < s.len() && s[i] == x {
            assert(d[i - 1] == x);
            assert(sorted_insert(s, x) =~= s);
        } else {
            assert(sorted_insert(s, x) =~= seq![s[0]] + d.insert(i - 1, x));
            assert(seq![s[0]] + d.insert(i - 1, x) =~= s.insert(i, x));
        }
    }
}

/// Contributor handles, kept deduplicated and in lexicographic order.
pub struct ContributorSet {
    names: Vec<String>,
}

impl ContributorSet {
    /// The handles, in order.
    pub closed spec fn view_spec(&self) -> Seq<Seq<char>> {
        self.names.deep_view()
    }

    /// An empty contributor set.
    pub fn new() -> (r: ContributorSet)
        ensures
            r.view_spec() == Seq::<Seq<char>>::empty(),
    {
        let r = ContributorSet { names: Vec::new() };
        proof {
            assert(r.names.deep_view() =~= Seq::<Seq<char>>::empty());
        }
        r
    }

    /// Adds one handle at its place in the order; a handle already present
    /// stays single.
    pub fn insert(&mut self, name: &str)
        ensures
            final(self).view_spec() == sorted_insert(old(self).view_spec(), name@),
    {
        let ghost s = self.names.deep_view();
        let n = self.names.len();
        let mut i: usize = 0;
        while i < n && !str_lex_leq(name, self.names[i].as_str())
            invariant
                0 <= i <= n,
                n == self.names@.len(),
                s == self.names.deep_view(),
                s.len() == n,
                forall|k: int| 0 <= k < i ==> !lex_leq(name@, #[trigger] s[k]),
            decreases n - i,
        {
            assert(s[i as int] == self.names@[i as int]@);
            i = i + 1;
        }
        assert(i < n ==> s[i as int] == self.names@[i as int]@);
        proof {
            lemma_sorted_insert_at(s, name@, i as int);
        }
        if i < n {
            if str_eq(self.names[i].as_str(), name) {
                return ;
            }
        }
        let ghost pre = self.names@;
        self.names.insert(i, name.to_owned());
        proof {
            pre.insert_ensures(i as int, self.names@[i as int]);
            assert(self.names.deep_view() =~= s.insert(i as int, name@));
        }
    }

    /// Adds every handle of `names`, in order.
    pub fn insert_all_names(&mut self, names: &Vec<String>)
        ensures
            final(self).view_spec() == insert_all(old(self).view_spec(), names.deep_view()),
    {
        let ghost s0 = self.view_spec();
        let ghost nv = names.deep_view();
        let n = names.len();
        let mut i: usize = 0;
        proof {
            assert(nv.take(0) =~= Seq::<Seq<char>>::empty());
        }
        while i < n
            invariant
                0 <= i <= n,
                n == names@.len(),
                nv == names.deep_view(),
                nv.len() == n,
                self.view_spec() == insert_all(s0, nv.take(i as int)),
            decreases n - i,
        {
            assert(nv[i as int] == names@[i as int]@);
            self.insert(names[i].as_str());
            proof {
                assert(nv.take(i as int + 1).drop_last() =~= nv.take(i as int));
                assert(nv.take(i as int + 1).last() == nv[i as int]);
            }
            i = i + 1;
        }
        assert(nv.take(n as int) =~= nv);
    }

    /// The handles, in lexicographic order.
    pub fn names(&self) -> (r: &Vec<String>)
        ensures
            r.deep_view() == self.view_spec(),
    {
        &self.names
    }
}

/// The composer's abstract state: the ids not yet consumed, the sections in
/// render order, and the contributor handles collected so far.
pub ghost struct ComposeState {
    pub ids: Set<u64>,
    pub secs: Seq<(Seq<char>, Seq<Issue>)>,
    pub contributors: Seq<Seq<char>>,
}

/// The key an issue files under: the section key of the first configured
/// label the issue carries, else the reserved `misc` bucket.
pub open spec fn issue_key(issue: Issue, labels: Seq<Seq<char>>) -> Seq<char>
    decreases labels.len(),
{
    if labels.len() == 0 {
        "misc"@
    } else if issue.labels.deep_view().contains(labels[0]) {
        section_key_of(labels[0])
    } else {
        issue_key(issue, labels.drop_first())
    }
}

/// The first entry carrying the key.
pub open spec fn index_of_key(secs: Seq<(Seq<char>, Seq<Issue>)>, key: Seq<char>) -> Option<int>
    decreases secs.len(),
{
    if secs.len() == 0 {
        None
    } else if secs[0].0 == key {
        Some(0)
    } else {
        match index_of_key(secs.drop_first(), key) {
            Some(j) => Some(j + 1),
            None => None,
        }
    }
}

/// Files the issue into the entry carrying the key; without such an entry
/// nothing changes.
pub open spec fn file_into(
    secs: Seq<(Seq<char>, Seq<Issue>)>,
    key: Seq<char>,
    issue: Issue,
) -> Seq<(Seq<char>, Seq<Issue>)> {
    match index_of_key(secs, key) {
        Some(j) => secs.update(j, (secs[j].0, secs[j].1.push(issue))),
        None => secs,
    }
}

/// Consumes one issue: an issue whose id is no longer registered is ignored
/// (it was already filed, or never aggregated); otherwise its id is claimed,
/// its assignees join the contributors, and it files under its key.
pub open spec fn file_step(st: ComposeState, issue: Issue, labels: Seq<Seq<char>>) -> ComposeState {
    if !st.ids.contains(issue.number) {
        st
    } else {
        ComposeState {
            ids: st.ids.remove(issue.number),
            secs: file_into(st.secs, issue_key(issue, labels), issue),
            contributors: insert_all(st.contributors, issue.assignees.deep_view()),
        }
    }
}

/// Consumes the issues in input order.
pub open spec fn file_all(
    st: ComposeState,
    issues: Seq<Issue>,
    labels: Seq<Seq<char>>,
) -> ComposeState
    decreases issues.len(),
{
    if issues.len() == 0 {
        st
    } else {
        file_step(file_all(st, issues.drop_last(), labels), issues.last(), labels)
    }
}

/// `index_of_key` is exactly the first position of the key.
proof fn lemma_index_of_key_at(secs: Seq<(Seq<char>, Seq<Issue>)>, key: Seq<char>, j: int)
    requires
        0 <= j < secs.len(),
        secs[j].0 == key,
        forall|k: int| 0 <= k < j ==> (#[trigger] secs[k]).0 != key,
    ensures
        index_of_key(secs, key) == Some(j),
    decreases secs.len(),
{
    if secs[0].0 == key {
        assert(j == 0);
    } else {
        let d = secs.drop_first();
        assert(forall|k: int| 0 <= k < j - 1 ==> d[k] == secs[k + 1] && (#[trigger] d[k]).0 != key);
        lemma_index_of_key_at(d, key, j - 1);
    }
}

/// Without the key there is no position.
proof fn lemma_index_of_key_none(secs: Seq<(Seq<char>, Seq<Issue>)>, key: Seq<char>)
    requires
        forall|k: int| 0 <= k < secs.len() ==> (#[trigger] secs[k]).0 != key,
    ensures
        index_of_key(secs, key) is None,
    decreases secs.len(),
{
    if secs.len() != 0 {
        let d = secs.drop_first();
        assert(forall|k: int| 0 <= k < d.len() ==> d[k] == secs[k + 1] && (#[trigger] d[k]).0 != key);
        lemma_index_of_key_none(d, key);
    }
}

impl Sections {
    /// Files the issue into the first section carrying `key`; without such a
    /// section the issue is dropped.
    pub fn file(&mut self, key: &str, issue: Issue)
        ensures
            final(self).view_spec() == file_into(old(self).view_spec(), key@, issue),
    {
        let ghost sv = self.view_spec();
        let ghost ev = self.entries@;
        let n = self.entries.len();
        let mut j: usize = 0;
        while j < n
            invariant
                0 <= j <= n,
                n == self.entries@.len(),
                sv == self.view_spec(),
                ev == self.entries@,
                sv == old(self).view_spec(),
                sv.len() == n,
                forall|k: int| 0 <= k < j ==> (#[trigger] sv[k]).0 != key@,
            decreases n - j,
        {
            assert(sv[j as int] == self.entries@[j as int]@);
            if str_eq(self.entries[j].key.as_str(), key) {
                proof {
                    lemma_index_of_key_at(sv, key@, j as int);
                }
                let mut entry = self.entries.remove(j);
                entry.issues.push(issue);
                self.entries.insert(j, entry);
                proof {
                    ev.remove_ensures(j as int);
                    assert(self.entries@ =~= ev.update(j as int, entry));
                    assert forall|k: int| 0 <= k < sv.len() implies #[trigger] self.view_spec()[k]
                        == file_into(sv, key@, issue)[k] by {
                        assert(self.view_spec()[k] == self.entries@[k]@);
                    }
                    assert(self.view_spec() =~= file_into(sv, key@, issue));
                }
                return ;
            }
            j = j + 1;
        }
        proof {
            lemma_index_of_key_none(sv, key@);
        }
    }

    /// The sections, in render order.
    pub fn entries(&self) -> (r: &Vec<Section>)
        ensures
            r@.map_values(|s: Section| s@) == self.view_spec(),
    {
        &self.entries
    }
}

/// The key an issue files under.
pub fn issue_key_exec(issue: &Issue, section_labels: &Vec<String>) -> (r: String)
    ensures
        r@ == issue_key(*issue, section_labels.deep_view()),
{
    let ghost lv = section_labels.deep_view();
    let n = section_labels.len();
    let mut i: usize = 0;
    assert(lv.skip(0) =~= lv);
    while i < n
        invariant
            0 <= i <= n,
            n == section_labels@.len(),
            lv == section_labels.deep_view(),
            lv.len() == n,
            issue_key(*issue, lv) == issue_key(*issue, lv.skip(i as int)),
        decreases n - i,
    {
        assert(lv.skip(i as int)[0] == lv[i as int]);
        assert(lv[i as int] == section_labels@[i as int]@);
        if crate::issues::contains_string(&issue.labels, section_labels[i].as_str()) {
            return section_key(section_labels[i].as_str());
        }
        proof {
            assert(lv.skip(i as int).drop_first() =~= lv.skip(i as int + 1));
        }
        i = i + 1;
    }
    proof {
        reveal_strlit("misc");
    }
    let misc = String::from_str("misc");
    assert(misc@ == "misc"@);
    misc
}

/// The title rendering of a section key; the outside case converter's
/// result depends on the key's characters alone.
pub uninterp spec fn title_case_of(s: Seq<char>) -> Seq<char>;

/// Relies on convert_case's `Casing::to_case` with the title case: the
/// rendered section title is a function of the key's characters alone.
#[verifier::external_body]
fn to_title_case(s: &str) -> (r: String)
    ensures
        r@ == title_case_of(s@),
{
    convert_case::Casing::to_case(&s, convert_case::Case::Title)
}

/// A pull-request-flavored issue: its web address mentions `pull`.  Such
/// issues are not rendered, though their assignees still count as
/// contributors.
pub open spec fn is_pull(i: Issue) -> bool {
    contains_seq(i.html_url@, "pull"@)
}

/// The assignee handles, each prefixed with `@` and joined by single spaces.
pub open spec fn handles_of(hs: Seq<Seq<char>>) -> Seq<char>
    decreases hs.len(),
{
    if hs.len() == 0 {
        Seq::empty()
    } else if hs.len() == 1 {
        "@"@ + hs[0]
    } else {
        handles_of(hs.drop_last()) + " @"@ + hs.last()
    }
}

/// One issue's bullet: title, its number as a link to its web address, and
/// the assignee handles.
pub open spec fn issue_line(i: Issue) -> Seq<char> {
    "- "@ + i.title@ + " ["@ + dec_str_of(i.number as int) + "]("@ + i.html_url@ + ") - "@
        + handles_of(i.assignees.deep_view()) + "\n"@
}

/// The bullets of one section, in filing order, pull-flavored issues left
/// out.
pub open spec fn section_lines(issues: Seq<Issue>) -> Seq<char>
    decreases issues.len(),
{
    if issues.len() == 0 {
        Seq::empty()
    } else {
        section_lines(issues.drop_last()) + if is_pull(issues.last()) {
            Seq::<char>::empty()
        } else {
            issue_line(issues.last())
        }
    }
}

/// One section's block: a heading with the title-cased key, then the
/// bullets.
pub open spec fn section_block(key: Seq<char>, issues: Seq<Issue>) -> Seq<char> {
    "\n### "@ + title_case_of(key) + "\n"@ + section_lines(issues)
}

/// All sections in order; a section nothing was filed under is omitted.
pub open spec fn render_sections(secs: Seq<(Seq<char>, Seq<Issue>)>) -> Seq<char>
    decreases secs.len(),
{
    if secs.len() == 0 {
        Seq::empty()
    } else {
        render_sections(secs.drop_last()) + if secs.last().1.len() == 0 {
            Seq::<char>::empty()
        } else {
            section_block(secs.last().0, secs.last().1)
        }
    }
}

/// The trailing contributor block's bullets, in the set's order.
pub open spec fn contributor_lines(cs: Seq<Seq<char>>) -> Seq<char>
    decreases cs.len(),
{
    if cs.len() == 0 {
        Seq::empty()
    } else {
        contributor_lines(cs.drop_last()) + "- @"@ + cs.last() + " \n"@
    }
}

/// The composer's starting state: the aggregated ids, one empty section per
/// key with `misc` last, and the extra contributors.
pub open spec fn initial_state(
    ids: Set<u64>,
    labels: Seq<Seq<char>>,
    extra: Seq<Seq<char>>,
) -> ComposeState {
    ComposeState {
        ids,
        secs: empty_sections(all_section_keys(labels)),
        contributors: insert_all(Seq::empty(), extra),
    }
}

/// The composer's state after consuming every issue.
pub open spec fn composed_state(
    ids: Set<u64>,
    issues: Seq<Issue>,
    labels: Seq<Seq<char>>,
    extra: Seq<Seq<char>>,
) -> ComposeState {
    file_all(initial_state(ids, labels, extra), issues, labels)
}

/// The whole note: the pre-note, the rendered sections, the post-note, and
/// the contributor block, in that fixed order.
pub open spec fn release_note_spec(
    ids: Set<u64>,
    issues: Seq<Issue>,
    labels: Seq<Seq<char>>,
    extra: Seq<Seq<char>>,
    pre: Seq<char>,
    post: Seq<char>,
) -> Seq<char> {
    let st = composed_state(ids, issues, labels, extra);
    pre + render_sections(st.secs) + post + "\n## Contributors\n"@ + contributor_lines(
        st.contributors,
    )
}

/// Appends the assignee handles, `@`-prefixed and space-joined.
fn push_handles(out: &mut String, assignees: &Vec<String>)
    ensures
        final(out)@ == old(out)@ + handles_of(assignees.deep_view()),
{
    let ghost base = out@;
    let ghost av = assignees.deep_view();
    let n = assignees.len();
    let mut i: usize = 0;
    proof {
        assert(av.take(0) =~= Seq::<Seq<char>>::empty());
        assert(out@ =~= base + handles_of(av.take(0)));
    }
    while i < n
        invariant
            0 <= i <= n,
            n == assignees@.len(),
            av == assignees.deep_view(),
            av.len() == n,
            out@ == base + handles_of(av.take(i as int)),
        decreases n - i,
    {
        assert(av[i as int] == assignees@[i as int]@);
        if i == 0 {
            out.append("@");
        } else {
            out.append(" @");
        }
        out.append(assignees[i].as_str());
        proof {
            assert(av.take(i as int + 1).drop_last() =~= av.take(i as int));
            assert(av.take(i as int + 1).last() == av[i as int]);
            assert(out@ =~= base + handles_of(av.take(i as int + 1)));
        }
        i = i + 1;
    }
    assert(av.take(n as int) =~= av);
}

/// Appends one issue's bullet.
fn push_issue_line(out: &mut String, issue: &Issue)
    ensures
        final(out)@ == old(out)@ + issue_line(*issue),
{
    let ghost base = out@;
    out.append("- ");
    out.append(issue.title.as_str());
    out.append(" [");
    push_dec(out, issue.number);
    out.append("](");
    out.append(issue.html_url.as_str());
    out.append(") - ");
    push_handles(out, &issue.assignees);
    out.append("\n");
    assert(out@ =~= base + issue_line(*issue));
}

/// Appends one section's bullets, leaving pull-flavored issues out.
fn push_section_lines(out: &mut String, issues: &Vec<Issue>)
    ensures
        final(out)@ == old(out)@ + section_lines(issues@),
{
    let ghost base = out@;
    let n = issues.len();
    let mut i: usize = 0;
    proof {
        assert(out@ =~= base + section_lines(issues@.take(0)));
    }
    while i < n
        invariant
            0 <= i <= n,
            n == issues@.len(),
            out@ == base + section_lines(issues@.take(i as int)),
        decreases n - i,
    {
        let it = &issues[i];
        if !contains_str(it.html_url.as_str(), "pull") {
            push_issue_line(out, it);
        }
        proof {
            assert(issues@.take(i as int + 1).drop_last() =~= issues@.take(i as int));
            assert(issues@.take(i as int + 1).last() == issues@[i as int]);
            assert(out@ =~= base + section_lines(issues@.take(i as int + 1)));
        }
        i = i + 1;
    }
    assert(issues@.take(n as int) =~= issues@);
}

/// Appends every non-empty section's block, in order.
fn push_sections(out: &mut String, sections: &Sections)
    ensures
        final(out)@ == old(out)@ + render_sections(sections.view_spec()),
{
    let ghost base = out@;
    let ghost sv = sections.view_spec();
    let entries = sections.entries();
    let n = entries.len();
    let mut i: usize = 0;
    proof {
        assert(out@ =~= base + render_sections(sv.take(0)));
    }
    while i < n
        invariant
            0 <= i <= n,
            n == entries@.len(),
            sv == entries@.map_values(|s: Section| s@),
            sv.len() == n,
            out@ == base + render_sections(sv.take(i as int)),
        decreases n - i,
    {
        assert(sv[i as int] == entries@[i as int]@);
        let entry = &entries[i];
        if entry.issues.len() > 0 {
            out.append("\n### ");
            let title = to_title_case(entry.key.as_str());
            out.append(title.as_str());
            out.append("\n");
            push_section_lines(out, &entry.issues);
        }
        proof {
            assert(sv.take(i as int + 1).drop_last() =~= sv.take(i as int));
            assert(sv.take(i as int + 1).last() == sv[i as int]);
            assert(out@ =~= base + render_sections(sv.take(i as int + 1)));
        }
        i = i + 1;
    }
    assert(sv.take(n as int) =~= sv);
}

/// Appends the contributor block's bullets.
fn push_contributor_lines(out: &mut String, names: &Vec<String>)
    ensures
        final(out)@ == old(out)@ + contributor_lines(names.deep_view()),
{
    let ghost base = out@;
    let ghost nv = names.deep_view();
    let n = names.len();
    let mut i: usize = 0;
    proof {
        assert(nv.take(0) =~= Seq::<Seq<char>>::empty());
        assert(out@ =~= base + contributor_lines(nv.take(0)));
    }
    while i < n
        invariant
            0 <= i <= n,
            n == names@.len(),
            nv == names.deep_view(),
            nv.len() == n,
            out@ == base + contributor_lines(nv.take(i as int)),
        decreases n - i,
    {
        assert(nv[i as int] == names@[i as int]@);
        out.append("- @");
        out.append(names[i].as_str());
        out.append(" \n");
        proof {
            assert(nv.take(i as int + 1).drop_last() =~= nv.take(i as int));
            assert(nv.take(i as int + 1).last() == nv[i as int]);
            assert(out@ =~= base + contributor_lines(nv.take(i as int + 1)));
        }
        i = i + 1;
    }
    assert(nv.take(n as int) =~= nv);
}

/// Composes the release note.  Issues are consumed in input order, each at
/// most once: an issue whose id is still registered is claimed, files under
/// the first configured label it carries (else `misc`), and contributes its
/// assignees; a duplicate from the second search pass is ignored.  Sections
/// render in configuration order with `misc` last, empty sections and
/// pull-flavored issues are not rendered, and the sorted contributor block
/// closes the note after the post-note.
pub fn compose_release_note(
    issue_ids: &mut IdSet,
    issues: Vec<Issue>,
    section_labels: &Vec<String>,
    extra_contributors: &Vec<String>,
    pre_note: &str,
    post_note: &str,
) -> (r: String)
    requires
        old(issue_ids).wf(),
    ensures
        final(issue_ids).wf(),
        final(issue_ids)@ == composed_state(
            old(issue_ids)@,
            issues@,
            section_labels.deep_view(),
            extra_contributors.deep_view(),
        ).ids,
        r@ == release_note_spec(
            old(issue_ids)@,
            issues@,
            section_labels.deep_view(),
            extra_contributors.deep_view(),
            pre_note@,
            post_note@,
        ),
{
    let ghost ids0 = issue_ids@;
    let ghost lv = section_labels.deep_view();
    let ghost xv = extra_contributors.deep_view();
    let ghost init = initial_state(ids0, lv, xv);
    let ghost orig = issues@;
    let mut sections = Sections::new(section_labels);
    let mut contributors = ContributorSet::new();
    contributors.insert_all_names(extra_contributors);
    assert(contributors.view_spec() == insert_all(Seq::<Seq<char>>::empty(), xv));
    let mut issues = issues;
    let ghost done = Seq::<Issue>::empty();
    proof {
        assert(orig =~= done + issues@);
        assert(file_all(init, done, lv) == init);
    }
    while issues.len() > 0
        invariant
            issue_ids.wf(),
            orig == done + issues@,
            init == initial_state(ids0, lv, xv),
            lv == section_labels.deep_view(),
            ids0 == old(issue_ids)@,
            issue_ids@ == file_all(init, done, lv).ids,
            sections.view_spec() == file_all(init, done, lv).secs,
            contributors.view_spec() == file_all(init, done, lv).contributors,
        decreases issues@.len(),
    {
        let ghost prev_done = done;
        let ghost prev = file_all(init, done, lv);
        let it = issues.remove(0);
        let ghost itg = it;
        let claimed = issue_ids.claim(it.number);
        if claimed {
            contributors.insert_all_names(&it.assignees);
            let key = issue_key_exec(&it, section_labels);
            sections.file(key.as_str(), it);
        } else {
            proof {
                assert(prev.ids.remove(itg.number) =~= prev.ids);
            }
        }
        proof {
            done = prev_done.push(itg);
            assert(done.drop_last() =~= prev_done);
            assert(orig =~= done + issues@);
            assert(file_all(init, done, lv) == file_step(prev, itg, lv));
        }
    }
    assert(done =~= orig);
    let mut out = String::new();
    out.append(pre_note);
    push_sections(&mut out, &sections);
    out.append(post_note);
    out.append("\n## Contributors\n");
    push_contributor_lines(&mut out, contributors.names());
    assert(out@ =~= release_note_spec(ids0, orig, lv, xv, pre_note@, post_note@));
    out
}

/// Composing twice from the same inputs, each time with a fresh copy of the
/// id registry, yields byte-identical output: the note is a function of the
/// inputs alone.
pub proof fn lemma_compose_idempotent(
    ids: Set<u64>,
    issues: Seq<Issue>,
    labels: Seq<Seq<char>>,
    extra: Seq<Seq<char>>,
    pre: Seq<char>,
    post: Seq<char>,
    r1: Seq<char>,
    r2: Seq<char>,
)
    requires
        r1 == release_note_spec(ids, issues, labels, extra, pre, post),
        r2 == release_note_spec(ids, issues, labels, extra, pre, post),
    ensures
        r1 == r2,
{
}

/// The ids filed across all sections, in section order.
pub open spec fn sec_ids(secs: Seq<(Seq<char>, Seq<Issue>)>) -> Seq<u64>
    decreases secs.len(),
{
    if secs.len() == 0 {
        Seq::empty()
    } else {
        sec_ids(secs.drop_last()) + secs.last().1.map_values(|i: Issue| i.number)
    }
}

/// Membership in a concatenation.
proof fn lemma_concat_contains<A>(a: Seq<A>, b: Seq<A>, x: A)
    ensures
        (a + b).contains(x) <==> a.contains(x) || b.contains(x),
{
    if (a + b).contains(x) {
        let k = choose|k: int| 0 <= k < (a + b).len() && (a + b)[k] == x;
        if k < a.len() {
            assert(a[k] == x);
        } else {
            assert(b[k - a.len()] == x);
        }
    }
    if a.contains(x) {
        let k = choose|k: int| 0 <= k < a.len() && a[k] == x;
        assert((a + b)[k] == x);
    }
    if b.contains(x) {
        let k = choose|k: int| 0 <= k < b.len() && b[k] == x;
        assert((a + b)[a.len() + k] == x);
    }
}

/// What `index_of_key` found really is the first entry with the key.
proof fn lemma_index_of_key_props(secs: Seq<(Seq<char>, Seq<Issue>)>, key: Seq<char>)
    requires
        index_of_key(secs, key) is Some,
    ensures
        ({
            let j = index_of_key(secs, key).unwrap();
            0 <= j < secs.len() && secs[j].0 == key && forall|k: int|
                0 <= k < j ==> (#[trigger] secs[k]).0 != key
        }),
    decreases secs.len(),
{
    if secs.len() != 0 && secs[0].0 != key {
        lemma_index_of_key_props(secs.drop_first(), key);
        let d = secs.drop_first();
        let j = index_of_key(secs, key).unwrap();
        assert(index_of_key(d, key) == Some(j - 1));
        assert(forall|k: int| 1 <= k < j ==> (#[trigger] secs[k]).0 == d[k - 1].0);
    }
}

/// A listed key is found.
proof fn lemma_key_present_found(secs: Seq<(Seq<char>, Seq<Issue>)>, key: Seq<char>)
    requires
        keys_of(secs).contains(key),
    ensures
        index_of_key(secs, key) is Some,
    decreases secs.len(),
{
    let k = choose|k: int| 0 <= k < keys_of(secs).len() && keys_of(secs)[k] == key;
    assert(secs[k].0 == key);
    if secs[0].0 != key {
        let d = secs.drop_first();
        assert(keys_of(d)[k - 1] == d[k - 1].0);
        assert(d[k - 1].0 == secs[k].0);
        assert(keys_of(d).contains(key));
        lemma_key_present_found(d, key);
    }
}

/// Filing keeps the keys.
proof fn lemma_file_into_keys(secs: Seq<(Seq<char>, Seq<Issue>)>, key: Seq<char>, issue: Issue)
    ensures
        keys_of(file_into(secs, key, issue)) == keys_of(secs),
{
    match index_of_key(secs, key) {
        Some(j) => {
            lemma_index_of_key_props(secs, key);
            assert(keys_of(file_into(secs, key, issue)) =~= keys_of(secs));
        },
        None => {},
    }
}

/// Filing one issue adds exactly its id to the filed ids: the count grows by
/// one, membership grows by that id, and distinctness is kept when the id is
/// fresh.
proof fn lemma_sec_ids_file(secs: Seq<(Seq<char>, Seq<Issue>)>, key: Seq<char>, issue: Issue)
    requires
        index_of_key(secs, key) is Some,
    ensures
        sec_ids(file_into(secs, key, issue)).len() == sec_ids(secs).len() + 1,
        forall|x: u64|
            sec_ids(file_into(secs, key, issue)).contains(x) <==> sec_ids(secs).contains(x) || x
                == issue.number,
        !sec_ids(secs).contains(issue.number) && sec_ids(secs).no_duplicates() ==> sec_ids(
            file_into(secs, key, issue),
        ).no_duplicates(),
    decreases secs.len(),
{
    lemma_index_of_key_props(secs, key);
    let j = index_of_key(secs, key).unwrap();
    let f = file_into(secs, key, issue);
    let num = |i: Issue| i.number;
    if j == secs.len() - 1 {
        assert(f.drop_last() =~= secs.drop_last());
        assert(f.last() == (secs[j].0, secs[j].1.push(issue)));
        assert(f.last().1.map_values(num) =~= secs.last().1.map_values(num).push(issue.number));
        let a = sec_ids(secs.drop_last());
        let b = secs.last().1.map_values(num);
        assert(sec_ids(f) == a + b.push(issue.number));
        assert(a + b.push(issue.number) =~= (a + b).push(issue.number));
        let s0 = sec_ids(secs);
        assert(sec_ids(f) == s0.push(issue.number));
        assert forall|x: u64| sec_ids(f).contains(x) <==> s0.contains(x) || x
            == issue.number by {
            if sec_ids(f).contains(x) {
                let k = choose|k: int| 0 <= k < sec_ids(f).len() && sec_ids(f)[k] == x;
                if k < s0.len() {
                    assert(s0[k] == x);
                }
            }
            if s0.contains(x) {
                let k = choose|k: int| 0 <= k < s0.len() && s0[k] == x;
                assert(sec_ids(f)[k] == x);
            }
            assert(sec_ids(f)[s0.len() as int] == issue.number);
        }
        if !s0.contains(issue.number) && s0.no_duplicates() {
            assert forall|a1: int, b1: int|
                0 <= a1 < sec_ids(f).len() && 0 <= b1 < sec_ids(f).len() && a1
                    != b1 implies sec_ids(f)[a1] != sec_ids(f)[b1] by {
                if a1 < s0.len() && b1 < s0.len() {
                } else if a1 == s0.len() {
                    assert(s0.contains(s0[b1]));
                } else if b1 == s0.len() {
                    assert(s0.contains(s0[a1]));
                }
            }
        }
    } else {
        let d = secs.drop_last();
        assert(forall|k: int| 0 <= k < j ==> d[k] == secs[k]);
        assert(d[j] == secs[j]);
        lemma_index_of_key_at(d, key, j);
        lemma_sec_ids_file(d, key, issue);
        let fd = file_into(d, key, issue);
        assert(f.drop_last() =~= fd);
        assert(f.last() == secs.last());
        let tail = secs.last().1.map_values(num);
        assert(sec_ids(f) == sec_ids(fd) + tail);
        assert(sec_ids(secs) == sec_ids(d) + tail);
        assert forall|x: u64| sec_ids(f).contains(x) <==> sec_ids(secs).contains(x) || x
            == issue.number by {
            lemma_concat_contains(sec_ids(fd), tail, x);
            lemma_concat_contains(sec_ids(d), tail, x);
        }
        if !sec_ids(secs).contains(issue.number) && sec_ids(secs).no_duplicates() {
            assert forall|x: u64| sec_ids(d).contains(x) implies sec_ids(secs).contains(
                x,
            ) by {
                lemma_concat_contains(sec_ids(d), tail, x);
            }
            assert(sec_ids(d).no_duplicates()) by {
                assert(forall|k: int|
                    0 <= k < sec_ids(d).len() ==> #[trigger] sec_ids(d)[k] == sec_ids(secs)[k]);
            }
            assert(!sec_ids(d).contains(issue.number));
            assert(sec_ids(fd).no_duplicates());
            assert forall|a1: int, b1: int|
                0 <= a1 < sec_ids(f).len() && 0 <= b1 < sec_ids(f).len() && a1
                    != b1 implies sec_ids(f)[a1] != sec_ids(f)[b1] by {
                let fl = sec_ids(fd).len() as int;
                if a1 < fl && b1 < fl {
                } else if a1 >= fl && b1 >= fl {
                    assert(sec_ids(secs)[sec_ids(d).len() + (a1 - fl)] == sec_ids(f)[a1]);
                    assert(sec_ids(secs)[sec_ids(d).len() + (b1 - fl)] == sec_ids(f)[b1]);
                } else {
                    let ai = if a1 < fl { a1 } else { b1 };
                    let bi = if a1 < fl { b1 } else { a1 };
                    // ai indexes the filed part, bi the untouched tail
                    assert(sec_ids(f)[bi] == tail[bi - fl]);
                    assert(sec_ids(secs).contains(tail[bi - fl])) by {
                        lemma_concat_contains(sec_ids(d), tail, tail[bi - fl]);
                    }
                    assert(sec_ids(fd).contains(sec_ids(f)[ai]));
                    if sec_ids(f)[ai] == sec_ids(f)[bi] {
                        lemma_concat_contains(sec_ids(d), tail, sec_ids(f)[ai]);
                        if sec_ids(d).contains(sec_ids(f)[ai]) {
                            let k1 = choose|k1: int|
                                0 <= k1 < sec_ids(d).len() && sec_ids(d)[k1] == sec_ids(f)[ai];
                            assert(sec_ids(secs)[k1] == sec_ids(f)[ai]);
                            assert(sec_ids(secs)[sec_ids(d).len() + (bi - fl)] == sec_ids(
                                f,
                            )[bi]);
                            assert(false);
                        } else {
                            assert(sec_ids(f)[ai] == issue.number);
                            assert(sec_ids(secs).contains(issue.number));
                            assert(false);
                        }
                    }
                }
            }
        }
    }
}

/// Every key an issue can file under is a configured section key.
proof fn lemma_issue_key_in_keys(issue: Issue, labels: Seq<Seq<char>>)
    ensures
        all_section_keys(labels).contains(issue_key(issue, labels)),
    decreases labels.len(),
{
    if labels.len() == 0 {
        assert(all_section_keys(labels)[all_section_keys(labels).len() - 1] == "misc"@);
    } else if issue.labels.deep_view().contains(labels[0]) {
        lemma_keys_acc_contains(labels, 0);
        lemma_all_keys_extend(labels);
    } else {
        lemma_issue_key_in_keys_from(issue, labels, 1);
    }
}

/// `issue_key` scanned from any position yields `misc` or a configured key.
proof fn lemma_issue_key_in_keys_from(issue: Issue, labels: Seq<Seq<char>>, i: int)
    requires
        0 <= i <= labels.len(),
    ensures
        all_section_keys(labels).contains(issue_key(issue, labels.skip(i))),
    decreases labels.len() - i,
{
    let rest = labels.skip(i);
    if rest.len() == 0 {
        lemma_misc_in_all_keys(labels);
    } else if issue.labels.deep_view().contains(rest[0]) {
        assert(rest[0] == labels[i]);
        lemma_keys_acc_contains(labels, i);
        lemma_all_keys_extend(labels);
    } else {
        assert(rest.drop_first() =~= labels.skip(i + 1));
        lemma_issue_key_in_keys_from(issue, labels, i + 1);
    }
}

/// The reserved bucket is always among the section keys.
proof fn lemma_misc_in_all_keys(labels: Seq<Seq<char>>)
    ensures
        all_section_keys(labels).contains("misc"@),
{
    let ks = keys_acc(labels);
    if !ks.contains("misc"@) {
        assert(all_section_keys(labels)[ks.len() as int] == "misc"@);
    } else {
        let k = choose|k: int| 0 <= k < ks.len() && ks[k] == "misc"@;
        assert(all_section_keys(labels)[k] == "misc"@);
    }
}

/// Every configured key is among the section keys.
proof fn lemma_all_keys_extend(labels: Seq<Seq<char>>)
    ensures
        forall|x: Seq<char>|
            keys_acc(labels).contains(x) ==> all_section_keys(labels).contains(x),
{
    let ks = keys_acc(labels);
    assert forall|x: Seq<char>| ks.contains(x) implies all_section_keys(labels).contains(x) by {
        let k = choose|k: int| 0 <= k < ks.len() && ks[k] == x;
        assert(all_section_keys(labels)[k] == x);
    }
}

/// The key of each configured label is collected.
proof fn lemma_keys_acc_contains(labels: Seq<Seq<char>>, k: int)
    requires
        0 <= k < labels.len(),
    ensures
        keys_acc(labels).contains(section_key_of(labels[k])),
    decreases labels.len(),
{
    let rest = keys_acc(labels.drop_last());
    let key = section_key_of(labels.last());
    if k == labels.len() - 1 {
        if rest.contains(key) {
        } else {
            assert(keys_acc(labels)[rest.len() as int] == key);
        }
    } else {
        assert(labels.drop_last()[k] == labels[k]);
        lemma_keys_acc_contains(labels.drop_last(), k);
        let x = section_key_of(labels[k]);
        let k2 = choose|k2: int| 0 <= k2 < rest.len() && rest[k2] == x;
        if rest.contains(key) {
        } else {
            assert(keys_acc(labels)[k2] == x);
        }
    }
}

/// Nothing is filed yet in freshly built sections.
proof fn lemma_sec_ids_empty(keys: Seq<Seq<char>>)
    ensures
        sec_ids(empty_sections(keys)) == Seq::<u64>::empty(),
    decreases keys.len(),
{
    if keys.len() != 0 {
        assert(empty_sections(keys).drop_last() =~= empty_sections(keys.drop_last()));
        lemma_sec_ids_empty(keys.drop_last());
        assert(empty_sections(keys).last().1.map_values(|i: Issue| i.number) =~= Seq::<
            u64,
        >::empty());
        assert(sec_ids(empty_sections(keys)) =~= Seq::<u64>::empty());
    }
}

/// Filing one issue list: the filed ids stay distinct and disjoint from the
/// registry, the keys stay fixed, and one id leaves the registry for each
/// filed issue.
proof fn lemma_file_all_accounting(st: ComposeState, issues: Seq<Issue>, labels: Seq<Seq<char>>)
    requires
        st.ids.finite(),
        sec_ids(st.secs).no_duplicates(),
        forall|x: u64| sec_ids(st.secs).contains(x) ==> !st.ids.contains(x),
        keys_of(st.secs) == all_section_keys(labels),
    ensures
        ({
            let r = file_all(st, issues, labels);
            &&& r.ids.finite()
            &&& sec_ids(r.secs).no_duplicates()
            &&& (forall|x: u64| sec_ids(r.secs).contains(x) ==> !r.ids.contains(x))
            &&& keys_of(r.secs) == all_section_keys(labels)
            &&& r.ids.len() + sec_ids(r.secs).len() == st.ids.len() + sec_ids(st.secs).len()
            &&& r.ids.subset_of(st.ids)
        }),
    decreases issues.len(),
{
    if issues.len() != 0 {
        lemma_file_all_accounting(st, issues.drop_last(), labels);
        let prev = file_all(st, issues.drop_last(), labels);
        let issue = issues.last();
        let r = file_all(st, issues, labels);
        if prev.ids.contains(issue.number) {
            let key = issue_key(issue, labels);
            lemma_issue_key_in_keys(issue, labels);
            lemma_key_present_found(prev.secs, key);
            lemma_sec_ids_file(prev.secs, key, issue);
            lemma_file_into_keys(prev.secs, key, issue);
            assert(!sec_ids(prev.secs).contains(issue.number));
            assert(sec_ids(r.secs).no_duplicates());
            assert(prev.ids.remove(issue.number).len() == prev.ids.len() - 1);
            assert forall|x: u64| sec_ids(r.secs).contains(x) implies !r.ids.contains(x) by {
                if x == issue.number {
                } else {
                    assert(sec_ids(prev.secs).contains(x));
                }
            }
        }
    }
}

/// A name list in strictly increasing lexicographic order: sorted, with no
/// name twice.
pub open spec fn strictly_sorted(s: Seq<Seq<char>>) -> bool {
    forall|i: int| 0 <= i < s.len() - 1 ==> lex_leq(#[trigger] s[i], s[i + 1]) && s[i] != s[i + 1]
}

/// Insertion keeps the order strict.
proof fn lemma_sorted_insert_sorted(s: Seq<Seq<char>>, x: Seq<char>)
    requires
        strictly_sorted(s),
    ensures
        strictly_sorted(sorted_insert(s, x)),
    decreases s.len(),
{
    lemma_lex_refl(x);
    let r = sorted_insert(s, x);
    if s.len() == 0 {
    } else if s[0] == x {
    } else if lex_leq(x, s[0]) {
        assert(forall|i: int| 0 <= i < s.len() ==> r[i + 1] == s[i]);
        assert forall|i: int| 0 <= i < r.len() - 1 implies lex_leq(#[trigger] r[i], r[i + 1])
            && r[i] != r[i + 1] by {
            if i > 0 {
                assert(r[i] == s[i - 1] && r[i + 1] == s[i]);
            }
        }
    } else {
        let d = s.drop_first();
        assert(strictly_sorted(d)) by {
            assert(forall|i: int| 0 <= i < d.len() ==> d[i] == s[i + 1]);
        }
        lemma_sorted_insert_sorted(d, x);
        let rd = sorted_insert(d, x);
        crate::text::lemma_lex_total(x, s[0]);
        assert(lex_leq(s[0], x));
        assert(s[0] != x);
        // the head of the inserted tail is the old second name or `x`
        if d.len() == 0 {
            assert(rd[0] == x);
        } else if d[0] == x {
            assert(rd[0] == d[0]);
        } else if lex_leq(x, d[0]) {
            assert(rd[0] == x);
        } else {
            assert(rd[0] == d[0]);
        }
        assert(d.len() > 0 ==> (lex_leq(s[0], d[0]) && s[0] != d[0]));
        assert(forall|i: int| 0 <= i < rd.len() ==> r[i + 1] == rd[i]);
        assert forall|i: int| 0 <= i < r.len() - 1 implies lex_leq(#[trigger] r[i], r[i + 1])
            && r[i] != r[i + 1] by {
            if i == 0 {
                assert(r[0] == s[0] && r[1] == rd[0]);
            } else {
                assert(r[i] == rd[i - 1] && r[i + 1] == rd[i]);
            }
        }
    }
}

/// Inserting many names keeps the order strict.
proof fn lemma_insert_all_sorted(s: Seq<Seq<char>>, xs: Seq<Seq<char>>)
    requires
        strictly_sorted(s),
    ensures
        strictly_sorted(insert_all(s, xs)),
    decreases xs.len(),
{
    if xs.len() != 0 {
        lemma_insert_all_sorted(s, xs.drop_last());
        lemma_sorted_insert_sorted(insert_all(s, xs.drop_last()), xs.last());
    }
}

/// Consuming issues keeps the contributor set strictly sorted.
proof fn lemma_file_all_sorted(st: ComposeState, issues: Seq<Issue>, labels: Seq<Seq<char>>)
    requires
        strictly_sorted(st.contributors),
    ensures
        strictly_sorted(file_all(st, issues, labels).contributors),
    decreases issues.len(),
{
    if issues.len() != 0 {
        lemma_file_all_sorted(st, issues.drop_last(), labels);
        let prev = file_all(st, issues.drop_last(), labels);
        if prev.ids.contains(issues.last().number) {
            lemma_insert_all_sorted(prev.contributors, issues.last().assignees.deep_view());
        }
    }
}

/// The contributor block is rendered from a strictly sorted set: the handles
/// appear in lexicographic order, none of them twice.
pub proof fn lemma_contributors_sorted(
    ids: Set<u64>,
    issues: Seq<Issue>,
    labels: Seq<Seq<char>>,
    extra: Seq<Seq<char>>,
)
    ensures
        strictly_sorted(composed_state(ids, issues, labels, extra).contributors),
{
    assert(strictly_sorted(Seq::<Seq<char>>::empty()));
    lemma_insert_all_sorted(Seq::empty(), extra);
    lemma_file_all_sorted(initial_state(ids, labels, extra), issues, labels);
}

/// No duplicate filing: across the composed sections every issue id appears
/// at most once, and the registry shrinks by exactly the number of filed
/// issues — what is left registered plus what was filed is what was
/// registered before.
pub proof fn lemma_no_duplicate_filing(
    ids: Set<u64>,
    issues: Seq<Issue>,
    labels: Seq<Seq<char>>,
    extra: Seq<Seq<char>>,
)
    requires
        ids.finite(),
    ensures
        ({
            let st = composed_state(ids, issues, labels, extra);
            &&& sec_ids(st.secs).no_duplicates()
            &&& st.ids.len() + sec_ids(st.secs).len() == ids.len()
            &&& st.ids.subset_of(ids)
        }),
{
    let init = initial_state(ids, labels, extra);
    lemma_sec_ids_empty(all_section_keys(labels));
    assert(keys_of(init.secs) =~= all_section_keys(labels));
    lemma_file_all_accounting(init, issues, labels);
}

} // verus!
