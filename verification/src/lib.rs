//! Collaboration-network analysis of version-control history.
//!
//! The crate turns the text of a commit-log dump into two weighted graphs —
//! which authors changed which files, and which files change together in the
//! same commit — and persists them as a compact line-oriented snapshot with
//! indexed lookups for ownership and co-change queries.
#![verifier::loop_isolation(false)]

pub mod aggregate;
pub mod assoc;
pub mod codec;
pub mod db;
pub mod laws;
pub mod normalize;
pub mod parse;
pub mod report;
pub mod text;
