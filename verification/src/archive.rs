//! Archive extraction, through the `zip` crate.
//!
//! A feed arrives as an in-memory ZIP archive; the stop data is the
//! member named exactly `stops.txt`.  Nested archives and other member
//! names are not supported: a feed packaged differently is a hard
//! failure.

use vstd::prelude::*;
use crate::errors::FeedErrorKind;

verus! {

/// Whether `zip::ZipArchive::new` accepts these bytes as an archive.
pub uninterp spec fn zip_parses(archive: Seq<u8>) -> bool;

/// The decompressed bytes of the archive member named `stops.txt`, when
/// the bytes are a readable archive, the member exists, and it reads to
/// the end without error; decompression depends on the bytes alone.
pub uninterp spec fn zip_stops_member(archive: Seq<u8>) -> Option<Seq<u8>>;

/// Relies on `zip::ZipArchive::new` to open the archive,
/// `ZipArchive::by_name` to find the member named `stops.txt`
/// (`ZipError::FileNotFound` when absent), and `Read::read_to_end` to
/// decompress it fully.
#[verifier::external_body]
pub(crate) fn extract_stops_member(archive: &Vec<u8>) -> (r: Result<Vec<u8>, FeedErrorKind>)
    ensures
        match r {
            Ok(m) => zip_parses(archive@) && zip_stops_member(archive@) == Some(m@),
            Err(k) => zip_stops_member(archive@) is None && (k == FeedErrorKind::MissingMember
                ==> zip_parses(archive@)) && (k == FeedErrorKind::Archive
                || k == FeedErrorKind::MissingMember),
        },
{
    let cursor = std::io::Cursor::new(archive.as_slice());
    let mut zip = zip::ZipArchive::new(cursor).map_err(|_| FeedErrorKind::Archive)?;
    let mut file = zip.by_name("stops.txt").map_err(|e| match e {
        zip::result::ZipError::FileNotFound => FeedErrorKind::MissingMember,
        _ => FeedErrorKind::Archive,
    })?;
    let mut out = Vec::new();
    std::io::Read::read_to_end(&mut file, &mut out).map_err(|_| FeedErrorKind::Archive)?;
    Ok(out)
}

} // verus!
