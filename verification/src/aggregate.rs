//! Merging the per-agency results: the all-or-nothing contract.
//!
//! Every agency's pipeline runs to completion before merging; nothing is
//! cancelled early.  The caller hands in one outcome per agency, in the
//! order the pipelines completed.  If any failed, the whole run fails
//! with the first failure in that order, and no collection is produced.
//! Otherwise the per-agency record lists are concatenated, in completion
//! order, into one collection, and the collection is indexed and
//! serialized.

use vstd::prelude::*;
use crate::codec::Artifact;
use crate::codec::artifact_encodable;
use crate::codec::enc_artifact;
use crate::codec::encode_artifact;
use crate::errors::FeedError;
use crate::errors::FeedErrorKind;
use crate::index::Point;
use crate::stop::StopData;
use crate::stop::StopRecord;
use crate::stop::stops_view;

verus! {

/// What one agency's pipeline came back with.
pub struct FeedOutcome {
    pub agency: Vec<u8>,
    pub outcome: Result<Vec<StopRecord>, FeedErrorKind>,
}

/// Merge outcomes `i..`, onto `acc`: the concatenation of every list if
/// all succeeded, else the first failure in order, with its agency.
pub open spec fn merged(outs: Seq<FeedOutcome>, i: int, acc: Seq<StopData>) -> Result<
    Seq<StopData>,
    (Seq<u8>, FeedErrorKind),
>
    decreases outs.len() - i,
        when 0 <= i <= outs.len()
{
    if i == outs.len() {
        Ok(acc)
    } else {
        match outs[i].outcome {
            Err(k) => Err((outs[i].agency@, k)),
            Ok(stops) => merged(outs, i + 1, acc + stops_view(stops@)),
        }
    }
}

/// Merge the completed pipelines into one collection, or fail the whole
/// run with the first failure in completion order.
#[verifier::loop_isolation(false)]
pub fn merge_results(outs: Vec<FeedOutcome>) -> (r: Result<Vec<StopRecord>, FeedError>)
    ensures
        match r {
            Ok(stops) => merged(outs@, 0, Seq::empty()) == Ok::<Seq<StopData>, (Seq<u8>,
                FeedErrorKind)>(stops_view(stops@)),
            Err(e) => merged(outs@, 0, Seq::empty()) == Err::<Seq<StopData>, (Seq<u8>,
                FeedErrorKind)>((e.agency@, e.kind)),
        },
{
    let ghost all = outs@;
    let mut rest = outs;
    let mut acc: Vec<StopRecord> = Vec::new();
    proof {
        assert(stops_view(acc@) =~= Seq::<StopData>::empty());
        assert(all.skip(0) =~= all);
    }
    while rest.len() > 0
        invariant
            rest@.len() <= all.len(),
            rest@ == all.skip(all.len() - rest@.len()),
            merged(all, 0, Seq::empty()) == merged(
                all,
                all.len() - rest@.len(),
                stops_view(acc@),
            ),
        decreases rest@.len(),
    {
        let ghost i = all.len() - rest@.len();
        proof {
            assert(all.skip(i as int)[0] == all[i as int]);
            assert(all[i as int] == rest@[0]);
        }
        let ghost prevrest = rest@;
        let fo = rest.remove(0);
        proof {
            assert(rest@ =~= all.skip(i as int + 1));
            assert(fo == all[i as int]);
        }
        match fo.outcome {
            Err(k) => {
                return Err(FeedError { agency: fo.agency, kind: k });
            },
            Ok(mut stops) => {
                let ghost prevacc = acc@;
                let ghost chunk = stops@;
                acc.append(&mut stops);
                proof {
                    assert(acc@ == prevacc + chunk);
                    assert(stops_view(acc@) =~= stops_view(prevacc) + stops_view(chunk));
                }
            },
        }
    }
    proof {
        assert(all.len() - rest@.len() == all.len());
    }
    Ok(acc)
}

/// The index points for a merged collection's records.
pub open spec fn data_points(recs: Seq<StopData>) -> Seq<Point> {
    recs.map_values(|d: StopData| Point { lat: d.stop_lat as i32, lon: d.stop_lon as i32 })
}

/// Why a run produced no artifact.
#[derive(Debug)]
pub enum BuildError {
    /// A feed pipeline failed; the whole run fails with it.
    Feed(FeedError),
    /// The merged collection does not fit the artifact format's length
    /// prefixes.
    Oversize,
}

/// The whole batch after the fetches: merge every agency's outcome,
/// build the spatial index over the merged collection, and serialize
/// both as the artifact bytes.  No partial artifact is ever produced.
pub fn build_artifact_bytes(outs: Vec<FeedOutcome>) -> (r: Result<Vec<u8>, BuildError>)
    ensures
        match r {
            Ok(b) => merged(outs@, 0, Seq::empty()) matches Ok(recs) && b@ == enc_artifact(
                recs,
                data_points(recs),
            ),
            Err(BuildError::Feed(e)) => merged(outs@, 0, Seq::empty()) == Err::<Seq<StopData>, (
                Seq<u8>,
                FeedErrorKind,
            )>((e.agency@, e.kind)),
            Err(BuildError::Oversize) => merged(outs@, 0, Seq::empty()) matches Ok(recs)
                && !artifact_encodable(recs, data_points(recs)),
        },
{
    let stops = match merge_results(outs) {
        Ok(stops) => stops,
        Err(e) => {
            return Err(BuildError::Feed(e));
        },
    };
    let ghost recs = stops_view(stops@);
    let artifact = Artifact::assemble(stops);
    proof {
        assert(artifact.index@ =~= data_points(recs));
    }
    match encode_artifact(&artifact) {
        Some(b) => Ok(b),
        None => Err(BuildError::Oversize),
    }
}

} // verus!
