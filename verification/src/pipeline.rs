//! One frame's pass through the engine: reduce the candidates when there
//! are too many, cluster them, refine and track the clusters, and expire
//! inactive history entries.

use crate::cluster::{views_of, Cluster};
use crate::dbscan::{dbscan_spec, DbScan};
use crate::motion::MotionVector;
use crate::reduce::{needs_reduction, reduce_candidates, reduce_spec, TARGET_CANDIDATES};
use crate::refine::{frame_clusters, max_label, refine_clusters, restore_all, with_within_flags};
use crate::tracker::{
    expire_spec, lemma_track_frame_times, temporal_expiration, track_frame,
};
use vstd::prelude::*;

verus! {

/// Process one frame's candidates against the rolling history.
///
/// The candidates are subsampled when over budget, clustered, grouped
/// and refined; independent clusters are tracked against the history,
/// and entries inactive for longer than `discard_after` are dropped.
/// Hands back the frame's clusters and the candidates as reported
/// (restored to true coordinates where they carry a label).
pub fn process_frame(
    candidates: Vec<MotionVector>,
    epsilon: i16,
    min_points: usize,
    discard_after: u128,
    history: &mut Vec<Cluster>,
    now: u128,
    last_history_id: &mut usize,
) -> (r: (Vec<Cluster>, Vec<MotionVector>))
    requires
        candidates@.len() < 0xffff,
        forall|t: int|
            0 <= t < candidates@.len() ==> (#[trigger] candidates@[t]).x >= 0
                && candidates@[t].y >= 0,
        forall|j: int|
            0 <= j < old(history)@.len() ==> (#[trigger] old(history)@[j]).birth <= now
                && old(history)@[j].active <= now,
        *old(last_history_id) + candidates@.len() < usize::MAX,
    ensures
        ({
            let full = candidates@;
            let red = needs_reduction(full.len() as int);
            let factor = full.len() as int / TARGET_CANDIDATES as int;
            let work = if red {
                reduce_spec(full, factor)
            } else {
                full
            };
            let labels = dbscan_spec(work, epsilon as int, min_points);
            let restored = restore_all(work, labels, red);
            let base = frame_clusters(restored, labels, max_label(labels) as int, now);
            let flagged = with_within_flags(base);
            let t = track_frame(views_of(old(history)@), *old(last_history_id), flagged, now);
            &&& views_of(r.0@) == t.2
            &&& r.1@ == restored
            &&& views_of(final(history)@) == expire_spec(t.0, now, discard_after)
            &&& *final(last_history_id) == t.1
        }),
{
    let ghost full = candidates@;
    let (mut work, reduced_flag): (Vec<MotionVector>, bool) = match reduce_candidates(
        &candidates,
    ) {
        None => (candidates, false),
        Some(pair) => (pair.0, true),
    };
    let ghost work0 = work@;
    let scanner = DbScan { epsilon, min_points };
    let results = scanner.run(&work);
    let clusters = refine_clusters(
        &mut work,
        &results,
        reduced_flag,
        history,
        now,
        last_history_id,
    );
    proof {
        let flagged = with_within_flags(
            frame_clusters(
                restore_all(work0, results@, reduced_flag),
                results@,
                max_label(results@) as int,
                now,
            ),
        );
        lemma_track_frame_times(
            views_of(old(history)@),
            *old(last_history_id),
            flagged,
            now,
        );
        assert forall|j: int|
            0 <= j < history@.len() implies (#[trigger] history@[j]).active <= now by {
            assert(history@[j]@ == views_of(history@)[j]);
        }
    }
    if history.len() > 0 {
        temporal_expiration(history, now, discard_after);
    } else {
        proof {
            reveal(Seq::filter);
            assert(views_of(history@).len() == 0);
            assert(views_of(history@) == expire_spec(views_of(history@), now, discard_after));
        }
    }
    (clusters, work)
}

} // verus!
