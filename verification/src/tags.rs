//! Previous-tag resolution: given a repository's tags ordered newest-first,
//! find the tag that marks the start of a release window.

use vstd::prelude::*;

use crate::error::EngineError;
use crate::text::str_eq;

verus! {

/// Whether a name parses as a semantic version whose pre-release component
/// is empty; the outside parser's verdict depends on the characters alone.
pub uninterp spec fn semver_public(s: Seq<char>) -> bool;

/// Relies on `semver::Version::parse` (and `Prerelease::is_empty` on its
/// result): whether `name` is a semantic version without a pre-release part
/// is a function of the characters alone.
#[verifier::external_body]
fn version_is_public(name: &str) -> (r: bool)
    ensures
        r == semver_public(name@),
{
    match semver::Version::parse(name) {
        Ok(v) => v.pre.is_empty(),
        Err(_) => false,
    }
}

/// A tag name with one leading `v` removed.
pub open spec fn v_stripped(s: Seq<char>) -> Seq<char> {
    if s.len() > 0 && s[0] == 'v' {
        s.drop_first()
    } else {
        s
    }
}

/// A tag is a candidate previous tag when every tag qualifies, or when its
/// name, stripped of a leading `v`, is a public semantic version.
pub open spec fn tag_qualifies(name: Seq<char>, public_only: bool) -> bool {
    !public_only || semver_public(v_stripped(name))
}

/// Whether the tag name qualifies as a candidate previous tag.
fn qualifies(name: &str, public_only: bool) -> (r: bool)
    ensures
        r == tag_qualifies(name@, public_only),
{
    if !public_only {
        return true;
    }
    let len = name.unicode_len();
    let stripped = if len > 0 && name.get_char(0) == 'v' {
        name.substring_char(1, len)
    } else {
        name
    };
    assert(stripped@ =~= v_stripped(name@));
    version_is_public(stripped)
}

/// The index of the selected previous tag, scanning `tags` (newest first)
/// from position `i`.  Once `started`, the first qualifying tag is selected;
/// before that, tags are skipped until the reference tag is consumed.
pub open spec fn select_tag(
    tags: Seq<Seq<char>>,
    reference: Seq<char>,
    public_only: bool,
    i: int,
    started: bool,
) -> Option<int>
    decreases tags.len() - i,
{
    if i < 0 || i >= tags.len() {
        None
    } else if started {
        if tag_qualifies(tags[i], public_only) {
            Some(i)
        } else {
            select_tag(tags, reference, public_only, i + 1, true)
        }
    } else {
        select_tag(tags, reference, public_only, i + 1, tags[i] == reference)
    }
}

/// The index of the previous tag for a whole tag list: scanning starts
/// immediately when the reference tag is empty.
pub open spec fn previous_tag_index(
    tags: Seq<Seq<char>>,
    reference: Seq<char>,
    public_only: bool,
) -> Option<int> {
    select_tag(tags, reference, public_only, 0, reference.len() == 0)
}

/// The name of the previous tag, when one is selected.
pub open spec fn previous_tag_of(
    tags: Seq<Seq<char>>,
    reference: Seq<char>,
    public_only: bool,
) -> Option<Seq<char>> {
    match previous_tag_index(tags, reference, public_only) {
        Some(i) => Some(tags[i]),
        None => None,
    }
}

/// Resolves the previous tag of `reference_tag` in `tags`, ordered newest
/// first.  When `reference_tag` is non-empty, all tags up to and including
/// its first occurrence are skipped; the first remaining candidate that
/// qualifies (every tag, or only public semantic versions when
/// `public_only`) is returned.  When no candidate qualifies the resolution
/// fails with `NotFound`.
pub fn previous_tag(tags: &Vec<String>, reference_tag: &str, public_only: bool) -> (r: Result<
    String,
    EngineError,
>)
    ensures
        match r {
            Ok(t) => previous_tag_of(tags.deep_view(), reference_tag@, public_only) == Some(t@),
            Err(e) => previous_tag_of(tags.deep_view(), reference_tag@, public_only) is None && e
                == EngineError::NotFound,
        },
{
    let ghost tv = tags.deep_view();
    let ghost reference = reference_tag@;
    let n = tags.len();
    let mut started = reference_tag.is_empty();
    let mut i: usize = 0;
    assert(tv.len() == n);
    while i < n
        invariant
            0 <= i <= n,
            n == tags@.len(),
            tv == tags.deep_view(),
            tv.len() == n,
            reference == reference_tag@,
            previous_tag_index(tv, reference, public_only) == select_tag(
                tv,
                reference,
                public_only,
                i as int,
                started,
            ),
        decreases n - i,
    {
        assert(tv[i as int] == tags@[i as int]@);
        if started {
            if qualifies(tags[i].as_str(), public_only) {
                let t = tags[i].clone();
                assert(select_tag(tv, reference, public_only, i as int, started) == Some(
                    i as int,
                ));
                return Ok(t);
            }
        } else {
            started = str_eq(tags[i].as_str(), reference_tag);
        }
        i = i + 1;
    }
    Err(EngineError::NotFound)
}

/// A selection made while `started` never lies before the scan position.
proof fn lemma_select_at_or_after(
    tags: Seq<Seq<char>>,
    reference: Seq<char>,
    public_only: bool,
    i: int,
    started: bool,
    j: int,
)
    requires
        select_tag(tags, reference, public_only, i, started) == Some(j),
    ensures
        i <= j < tags.len(),
        tag_qualifies(tags[j], public_only),
    decreases tags.len() - i,
{
    if i < 0 || i >= tags.len() {
    } else if started {
        if !tag_qualifies(tags[i], public_only) {
            lemma_select_at_or_after(tags, reference, public_only, i + 1, true, j);
        }
    } else {
        lemma_select_at_or_after(tags, reference, public_only, i + 1, tags[i] == reference, j);
    }
}

/// A selection that begins before the reference was consumed lies strictly
/// after an occurrence of the reference.
proof fn lemma_select_after_reference(
    tags: Seq<Seq<char>>,
    reference: Seq<char>,
    public_only: bool,
    i: int,
    j: int,
)
    requires
        select_tag(tags, reference, public_only, i, false) == Some(j),
    ensures
        exists|k: int| i <= k < j && #[trigger] tags[k] == reference,
    decreases tags.len() - i,
{
    if i < 0 || i >= tags.len() {
    } else if tags[i] == reference {
        lemma_select_at_or_after(tags, reference, public_only, i + 1, true, j);
        assert(tags[i] == reference && i < j);
    } else {
        lemma_select_after_reference(tags, reference, public_only, i + 1, j);
    }
}

/// With the public filter on, a resolved previous tag always parses, after
/// stripping a leading `v`, as a semantic version with an empty pre-release
/// component.
pub proof fn lemma_previous_tag_public(tags: Seq<Seq<char>>, reference: Seq<char>, t: Seq<char>)
    requires
        previous_tag_of(tags, reference, true) == Some(t),
    ensures
        semver_public(v_stripped(t)),
{
    let j = previous_tag_index(tags, reference, true).unwrap();
    lemma_select_at_or_after(tags, reference, true, 0, reference.len() == 0, j);
}

/// A non-empty reference tag is never resolved as its own previous tag, as
/// long as tag names are unique within the repository.
pub proof fn lemma_previous_tag_not_reference(
    tags: Seq<Seq<char>>,
    reference: Seq<char>,
    public_only: bool,
    t: Seq<char>,
)
    requires
        reference.len() > 0,
        tags.no_duplicates(),
        previous_tag_of(tags, reference, public_only) == Some(t),
    ensures
        t != reference,
{
    let j = previous_tag_index(tags, reference, public_only).unwrap();
    lemma_select_at_or_after(tags, reference, public_only, 0, false, j);
    lemma_select_after_reference(tags, reference, public_only, 0, j);
    let k = choose|k: int| 0 <= k < j && #[trigger] tags[k] == reference;
    assert(tags[k] != tags[j]);
}

} // verus!
