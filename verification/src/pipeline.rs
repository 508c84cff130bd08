//! One agency's feed pipeline: archive bytes in, stop records out.
//!
//! The caller fetches the archive over the network and hands the raw
//! bytes here; extraction and row decoding follow, and the first failure
//! of any stage is reported tagged with the agency identifier.

use vstd::prelude::*;
use crate::archive::extract_stops_member;
use crate::archive::zip_stops_member;
use crate::codec::copy_bytes;
use crate::errors::FeedError;
use crate::errors::FeedErrorKind;
use crate::rows::parse_stops;
use crate::rows::spec_parse_stops;
use crate::stop::StopData;
use crate::stop::StopRecord;
use crate::stop::stops_view;

verus! {

/// Extract and decode one fetched feed archive.  On success the records
/// are exactly the decoded rows of the archive's `stops.txt` member; any
/// failure carries the agency identifier and names the failing stage.
pub fn process_feed(agency: &Vec<u8>, archive: &Vec<u8>) -> (r: Result<Vec<StopRecord>, FeedError>)
    ensures
        match r {
            Ok(stops) => zip_stops_member(archive@) is Some && spec_parse_stops(
                zip_stops_member(archive@)->0,
            ) == Ok::<Seq<StopData>, ()>(stops_view(stops@)),
            Err(e) => e.agency@ == agency@ && match zip_stops_member(archive@) {
                Some(m) => spec_parse_stops(m) is Err && e.kind == FeedErrorKind::Decode,
                None => e.kind == FeedErrorKind::Archive || e.kind
                    == FeedErrorKind::MissingMember,
            },
        },
{
    match extract_stops_member(archive) {
        Err(k) => Err(FeedError { agency: copy_bytes(agency), kind: k }),
        Ok(member) => match parse_stops(&member) {
            Ok(stops) => Ok(stops),
            Err(k) => Err(FeedError { agency: copy_bytes(agency), kind: k }),
        },
    }
}

} // verus!
