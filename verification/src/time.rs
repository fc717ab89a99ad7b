//! The recency bound of a scan: the previous tag's commit time when it is
//! representable, else a day-count back from now, rendered for the history
//! query.

use vstd::prelude::*;

verus! {

/// The timestamp rendered as `%Y-%m-%dT%H:%M:%SZ`, or nothing when the
/// calendar cannot represent it; the outside formatter's result depends on
/// the timestamp alone.
pub uninterp spec fn utc_format(secs: int) -> Option<Seq<char>>;

/// The view of an optional string.
pub open spec fn opt_view(s: Option<String>) -> Option<Seq<char>> {
    match s {
        Some(s) => Some(s@),
        None => None,
    }
}

/// Relies on chrono's `DateTime::<Utc>::from_timestamp` (out-of-range
/// seconds give nothing) and its `format`: the rendered text is a function
/// of the timestamp alone.
#[verifier::external_body]
fn format_utc(secs: i64) -> (r: Option<String>)
    ensures
        opt_view(r) == utc_format(secs as int),
{
    match chrono::DateTime::<chrono::Utc>::from_timestamp(secs, 0) {
        Some(dt) => Some(dt.format("%Y-%m-%dT%H:%M:%SZ").to_string()),
        None => None,
    }
}

/// The timestamp the scan is bounded by: the previous tag's commit time when
/// the calendar can represent it, else `now` less `since_days` days.
pub open spec fn since_timestamp(prev_ts: Option<i64>, now: i64, since_days: i64) -> int {
    match prev_ts {
        Some(t) => if utc_format(t as int) is Some {
            t as int
        } else {
            now - since_days * 86400
        },
        None => now - since_days * 86400,
    }
}

/// Renders the scan's recency bound for the history query: the previous
/// tag's commit time when representable, else `now` less `since_days` days;
/// nothing when even the fallback cannot be represented.
pub fn since_date_string(prev_ts: Option<i64>, now: i64, since_days: i64) -> (r: Option<String>)
    requires
        i64::MIN <= since_days * 86400 <= i64::MAX,
        i64::MIN <= now - since_days * 86400 <= i64::MAX,
    ensures
        opt_view(r) == utc_format(since_timestamp(prev_ts, now, since_days)),
{
    if let Some(t) = prev_ts {
        if let Some(s) = format_utc(t) {
            return Some(s);
        }
    }
    format_utc(now - since_days * 86400)
}

} // verus!
