//! Release artifact synthesis engine.
//!
//! The library resolves which tag range defines a release, scans a commit
//! history for the commits inside that range, renders per-repository
//! changelog fragments, aggregates issues from a tracker, and composes a
//! sectioned, deduplicated release note.  All composition logic is verified;
//! network, subprocess and file work stays with the callers, which hand the
//! library plain values.

pub mod changelog;
pub mod cli;
pub mod commits;
pub mod error;
pub mod issues;
pub mod note;
pub mod repo;
pub mod tags;
pub mod text;
pub mod time;
