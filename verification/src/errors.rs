//! Error taxonomy of the pipeline.
//!
//! Every error is fatal to the whole run: there is no retry and no partial
//! output.  A feed-level error carries the identifier of the agency whose
//! pipeline raised it, so the surfaced message is diagnosable.

use vstd::prelude::*;

verus! {

/// What went wrong inside one agency's feed pipeline.
#[derive(Debug, PartialEq, Eq, Clone, Copy, Structural)]
pub enum FeedErrorKind {
    /// The HTTP fetch failed: connection failure, non-success status, or
    /// timeout.  Raised by the caller that performs the network I/O.
    Transport,
    /// The fetched bytes are not a readable ZIP archive.
    Archive,
    /// The archive has no member named exactly `stops.txt`.
    MissingMember,
    /// A data row violated the stop schema: a required column is missing,
    /// a coordinate is not numeric, or a row's width differs from the
    /// header's.
    Decode,
}

/// A feed pipeline failure tagged with the originating agency identifier.
#[derive(Debug, PartialEq, Eq, Clone)]
pub struct FeedError {
    pub agency: Vec<u8>,
    pub kind: FeedErrorKind,
}

impl FeedError {
    /// A short human-readable description, for the caller's diagnostics.
    pub fn describe(&self) -> (r: &'static str)
        ensures
            r@ == spec_describe(self.kind),
    {
        match self.kind {
            FeedErrorKind::Transport => "transport failure",
            FeedErrorKind::Archive => "not a readable ZIP archive",
            FeedErrorKind::MissingMember => "archive has no stops.txt member",
            FeedErrorKind::Decode => "malformed stop row",
        }
    }
}

/// The description `describe` returns for each error kind.
pub open spec fn spec_describe(kind: FeedErrorKind) -> Seq<char> {
    match kind {
        FeedErrorKind::Transport => "transport failure"@,
        FeedErrorKind::Archive => "not a readable ZIP archive"@,
        FeedErrorKind::MissingMember => "archive has no stops.txt member"@,
        FeedErrorKind::Decode => "malformed stop row"@,
    }
}

/// Querying an empty spatial index fails rather than returning an
/// arbitrary result.
#[derive(Debug, PartialEq, Eq, Clone, Copy, Structural)]
pub struct EmptyIndexError;

} // verus!
