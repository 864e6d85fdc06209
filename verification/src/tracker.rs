//! Temporal tracking: matching per-frame clusters against the rolling
//! history, identity assignment, and expiration of inactive entries.

use crate::cluster::{
    boxes_overlap, clone_points, copy_cluster, views_of, BBox, Cluster, ClusterV,
};
use vstd::prelude::*;

verus! {

/// The first history index at or after `i` whose box overlaps `b`, or -1
/// when none does. The first match wins: a deliberate tie-break kept for
/// deterministic behaviour under ambiguous multi-overlap scenes.
pub open spec fn first_overlap_from(h: Seq<ClusterV>, b: BBox, i: int) -> int
    decreases h.len() - i,
{
    if i < 0 || i >= h.len() {
        -1
    } else if boxes_overlap(b, h[i].bbox) {
        i
    } else {
        first_overlap_from(h, b, i + 1)
    }
}

/// The first history index whose box overlaps `b`, or -1 when none does.
pub open spec fn first_overlap(h: Seq<ClusterV>, b: BBox) -> int {
    first_overlap_from(h, b, 0)
}

/// When the scan from `i` finds an overlap, the found index lies in
/// range, its box overlaps, and no index between `i` and it does.
pub proof fn lemma_first_overlap_props(h: Seq<ClusterV>, b: BBox, i: int)
    requires
        0 <= i,
    ensures
        ({
            let r = first_overlap_from(h, b, i);
            ||| r == -1
            ||| (i <= r < h.len() && boxes_overlap(b, h[r].bbox) && forall|j: int|
                i <= j < r ==> !boxes_overlap(b, (#[trigger] h[j]).bbox))
        }),
    decreases h.len() - i,
{
    if i < h.len() && !boxes_overlap(b, h[i].bbox) {
        lemma_first_overlap_props(h, b, i + 1);
    }
}

/// A history entry refreshed in place from the per-frame cluster `c`:
/// geometry and content are overwritten, identity and birth are kept, the
/// entry becomes active now and its age grows to `now - birth`.
pub open spec fn updated_entry(e: ClusterV, c: ClusterV, now: u128) -> ClusterV {
    ClusterV {
        id: e.id,
        points: c.points,
        dir: c.dir,
        mag: c.mag,
        bbox: c.bbox,
        within: e.within,
        birth: e.birth,
        age: (now - e.birth) as u128,
        active: now,
        size: c.points.len() as usize,
    }
}

/// A history entry created for a cluster that matched nothing: a fresh
/// identity, born and active now, with age zero.
pub open spec fn fresh_entry(c: ClusterV, now: u128, id: usize) -> ClusterV {
    ClusterV {
        id: id,
        points: c.points,
        dir: c.dir,
        mag: c.mag,
        bbox: c.bbox,
        within: c.within,
        birth: now,
        age: 0,
        active: now,
        size: c.points.len() as usize,
    }
}

/// One tracking step: the history and identity counter after tracking `c`
/// at time `now`, and `c` itself with its age filled in when it matched.
pub open spec fn track_step(h: Seq<ClusterV>, last_id: usize, c: ClusterV, now: u128) -> (
    Seq<ClusterV>,
    usize,
    ClusterV,
) {
    let m = first_overlap(h, c.bbox);
    if m == -1 {
        (h.push(fresh_entry(c, now, (last_id + 1) as usize)), (last_id + 1) as usize, c)
    } else {
        (
            h.update(m, updated_entry(h[m], c, now)),
            last_id,
            ClusterV {
                id: c.id,
                points: c.points,
                dir: c.dir,
                mag: c.mag,
                bbox: c.bbox,
                within: c.within,
                birth: c.birth,
                age: (now - h[m].birth) as u128,
                active: c.active,
                size: c.size,
            },
        )
    }
}

/// Tracking a whole frame's clusters in order: nested clusters are
/// skipped, the others are tracked one after the other. Yields the final
/// history, the final identity counter, and the clusters with their ages
/// filled in.
pub open spec fn track_frame(h: Seq<ClusterV>, last_id: usize, cs: Seq<ClusterV>, now: u128) -> (
    Seq<ClusterV>,
    usize,
    Seq<ClusterV>,
)
    decreases cs.len(),
{
    if cs.len() == 0 {
        (h, last_id, Seq::<ClusterV>::empty())
    } else if cs[0].within {
        let r = track_frame(h, last_id, cs.drop_first(), now);
        (r.0, r.1, seq![cs[0]] + r.2)
    } else {
        let s = track_step(h, last_id, cs[0], now);
        let r = track_frame(s.0, s.1, cs.drop_first(), now);
        (r.0, r.1, seq![s.2] + r.2)
    }
}

/// Tracking a frame at time `now` keeps every entry's birth and
/// last-active time at or before `now`, provided the history started
/// that way.
pub proof fn lemma_track_frame_times(h: Seq<ClusterV>, id: usize, cs: Seq<ClusterV>, now: u128)
    requires
        forall|j: int|
            0 <= j < h.len() ==> (#[trigger] h[j]).birth <= now && h[j].active <= now,
    ensures
        ({
            let t = track_frame(h, id, cs, now);
            forall|j: int|
                0 <= j < t.0.len() ==> (#[trigger] t.0[j]).birth <= now && t.0[j].active <= now
        }),
    decreases cs.len(),
{
    if cs.len() > 0 {
        if cs[0].within {
            lemma_track_frame_times(h, id, cs.drop_first(), now);
            let t = track_frame(h, id, cs, now);
            let r = track_frame(h, id, cs.drop_first(), now);
            assert forall|j: int|
                0 <= j < t.0.len() implies (#[trigger] t.0[j]).birth <= now && t.0[j].active
                <= now by {
                assert(t.0[j] == r.0[j]);
            }
        } else {
            let s = track_step(h, id, cs[0], now);
            lemma_first_overlap_props(h, cs[0].bbox, 0);
            let fo = first_overlap(h, cs[0].bbox);
            assert forall|j: int|
                0 <= j < s.0.len() implies (#[trigger] s.0[j]).birth <= now && s.0[j].active
                <= now by {
                if fo == -1 {
                    if j < h.len() {
                        assert(s.0[j] == h[j]);
                    } else {
                        assert(s.0[j].birth == now && s.0[j].active == now);
                    }
                } else {
                    if j == fo {
                        assert(s.0[j].birth == h[fo].birth && s.0[j].active == now);
                    } else {
                        assert(s.0[j] == h[j]);
                    }
                }
            }
            lemma_track_frame_times(s.0, s.1, cs.drop_first(), now);
            let t = track_frame(h, id, cs, now);
            let r = track_frame(s.0, s.1, cs.drop_first(), now);
            assert forall|j: int|
                0 <= j < t.0.len() implies (#[trigger] t.0[j]).birth <= now && t.0[j].active
                <= now by {
                assert(t.0[j] == r.0[j]);
            }
        }
    }
}

/// The history after expiration: exactly the entries last active within
/// `expire_after` of `now` remain, in order.
pub open spec fn expire_spec(h: Seq<ClusterV>, now: u128, expire_after: u128) -> Seq<ClusterV> {
    h.filter(|e: ClusterV| now - e.active <= expire_after)
}

/// Well-formedness of the history: identities are positive, at most the
/// counter, strictly increasing in history order (so never reused), and
/// no entry was born after it was last active.
pub open spec fn hist_wf(h: Seq<ClusterV>, last_id: usize) -> bool {
    &&& forall|i: int| 0 <= i < h.len() ==> 1 <= (#[trigger] h[i]).id <= last_id
    &&& forall|i: int, j: int|
        0 <= i < j < h.len() ==> (#[trigger] h[i]).id < (#[trigger] h[j]).id
    &&& forall|i: int| 0 <= i < h.len() ==> (#[trigger] h[i]).birth <= h[i].active
}

/// The rectangle overlap test between two clusters' bounding boxes.
pub fn overlaps(c1: &Cluster, c2: &Cluster) -> (r: bool)
    ensures
        r == boxes_overlap(c1.bbox, c2.bbox),
{
    if c1.bbox.right < c2.bbox.left {
        return false;
    }
    if c2.bbox.right < c1.bbox.left {
        return false;
    }
    if c1.bbox.bottom < c2.bbox.top {
        return false;
    }
    if c2.bbox.bottom < c1.bbox.top {
        return false;
    }
    true
}

/// The first history entry overlapping `c`, if any.
pub fn overlaps_any(c: &Cluster, history: &Vec<Cluster>) -> (r: Option<usize>)
    ensures
        match r {
            Some(i) => i < history@.len() && first_overlap(views_of(history@), c.bbox) == i as int,
            None => first_overlap(views_of(history@), c.bbox) == -1,
        },
{
    let ghost hv = views_of(history@);
    let n = history.len();
    for i in 0..n
        invariant
            n == history@.len(),
            hv == views_of(history@),
            first_overlap(hv, c.bbox) == first_overlap_from(hv, c.bbox, i as int),
    {
        if overlaps(c, &history[i]) {
            proof {
                assert(hv[i as int] == history@[i as int]@);
            }
            return Some(i);
        }
        proof {
            assert(hv[i as int] == history@[i as int]@);
        }
    }
    None
}

/// Track one per-frame cluster: refresh the first overlapping history
/// entry in place, or append a new entry under the next identity. On a
/// match the cluster's own age is filled in from the entry's birth.
pub fn track_temporal(
    history: &mut Vec<Cluster>,
    cluster: &mut Cluster,
    now: u128,
    last_history_id: &mut usize,
)
    requires
        forall|j: int|
            0 <= j < old(history)@.len() ==> (#[trigger] old(history)@[j]).birth <= now,
        *old(last_history_id) < usize::MAX,
    ensures
        ({
            let r = track_step(
                views_of(old(history)@),
                *old(last_history_id),
                old(cluster)@,
                now,
            );
            &&& views_of(final(history)@) == r.0
            &&& *final(last_history_id) == r.1
            &&& final(cluster)@ == r.2
        }),
{
    let ghost h0 = views_of(old(history)@);
    match overlaps_any(cluster, history) {
        Some(i) => {
            let b = history[i].birth;
            proof {
                assert(h0[i as int] == history@[i as int]@);
            }
            cluster.age = now - b;
            let e = Cluster {
                id: history[i].id,
                points: clone_points(&cluster.points),
                dir: cluster.dir,
                mag: cluster.mag,
                bbox: cluster.bbox,
                within: history[i].within,
                birth: b,
                age: now - b,
                active: now,
                size: cluster.points.len(),
            };
            proof {
                assert(e@ == updated_entry(h0[i as int], old(cluster)@, now));
            }
            history[i] = e;
            proof {
                assert(views_of(history@) =~= h0.update(i as int, e@));
            }
        },
        None => {
            *last_history_id = *last_history_id + 1;
            let e = Cluster {
                id: *last_history_id,
                points: clone_points(&cluster.points),
                dir: cluster.dir,
                mag: cluster.mag,
                bbox: cluster.bbox,
                within: cluster.within,
                birth: now,
                age: 0,
                active: now,
                size: cluster.points.len(),
            };
            history.push(e);
            proof {
                assert(views_of(history@) =~= h0.push(e@));
            }
        },
    }
}

/// Remove every history entry inactive for longer than `expire_after`.
pub fn temporal_expiration(history: &mut Vec<Cluster>, now: u128, expire_after: u128)
    requires
        forall|j: int|
            0 <= j < old(history)@.len() ==> (#[trigger] old(history)@[j]).active <= now,
    ensures
        views_of(final(history)@) == expire_spec(views_of(old(history)@), now, expire_after),
{
    let ghost h0 = views_of(old(history)@);
    let ghost pred = |e: ClusterV| now - e.active <= expire_after;
    let mut kept: Vec<Cluster> = Vec::new();
    let n = history.len();
    for i in 0..n
        invariant
            n == history@.len(),
            history@ == old(history)@,
            h0 == views_of(history@),
            pred == (|e: ClusterV| now - e.active <= expire_after),
            forall|j: int|
                0 <= j < history@.len() ==> (#[trigger] history@[j]).active <= now,
            views_of(kept@) == h0.take(i as int).filter(pred),
    {
        proof {
            assert(h0[i as int] == history@[i as int]@);
            assert(h0.take(i + 1) =~= h0.take(i as int).push(h0[i as int]));
            h0.take(i as int).lemma_filter_push(h0[i as int], pred);
        }
        if now - history[i].active <= expire_after {
            let ghost kept0 = views_of(kept@);
            let e = copy_cluster(&history[i]);
            kept.push(e);
            proof {
                assert(views_of(kept@) =~= kept0.push(e@));
            }
        }
    }
    proof {
        assert(h0.take(n as int) =~= h0);
    }
    *history = kept;
}

} // verus!
