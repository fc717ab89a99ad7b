//! The error kinds of the synthesis engine.

use vstd::prelude::*;

verus! {

/// What can go wrong while synthesizing a release artifact.
///
/// `Incomplete` is special: a commit scan whose lower boundary was never
/// matched degrades to a partial changelog and reports this kind instead of
/// aborting, since a changelog is a best-effort communication artifact.
#[derive(Clone, Copy, PartialEq, Eq, Structural, Debug)]
pub enum EngineError {
    /// No qualifying previous tag, or no milestone with the requested title.
    NotFound,
    /// A network or API failure reported by a collaborator.
    UpstreamError,
    /// The commit-boundary was not matched before pagination was exhausted.
    Incomplete,
    /// The external issue filter hook failed or produced unreadable output.
    HookFailure,
}

/// The description of an error kind, for callers that print it.
pub open spec fn error_text(e: EngineError) -> Seq<char> {
    match e {
        EngineError::NotFound => "previous tag or milestone not found"@,
        EngineError::UpstreamError => "upstream query failed"@,
        EngineError::Incomplete => "commit boundary not matched before pagination was exhausted"@,
        EngineError::HookFailure => "issue filter hook failed"@,
    }
}

impl EngineError {
    /// A short human-readable description of the error.
    pub fn message(&self) -> (r: &'static str)
        ensures
            r@ == error_text(*self),
    {
        match self {
            EngineError::NotFound => "previous tag or milestone not found",
            EngineError::UpstreamError => "upstream query failed",
            EngineError::Incomplete => "commit boundary not matched before pagination was exhausted",
            EngineError::HookFailure => "issue filter hook failed",
        }
    }
}

} // verus!
