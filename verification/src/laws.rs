//! The engine's general guarantees, stated and proved over the spec
//! functions that the executable contracts use.

use crate::cluster::{box_within, boxes_overlap, BBox, ClusterV};
use crate::dbscan::dbscan_spec;
use crate::motion::MotionVector;
use crate::reduce::{reduce_spec, restored_sample};
use crate::refine::{bbox_add, bbox_of};
use crate::tracker::{
    expire_spec, first_overlap, first_overlap_from, fresh_entry, hist_wf,
    lemma_first_overlap_props, track_frame, track_step,
};
use vstd::prelude::*;

verus! {

/// How many samples carry label `c`.
pub open spec fn count_label(labels: Seq<usize>, c: usize) -> int
    decreases labels.len(),
{
    if labels.len() == 0 {
        0
    } else {
        count_label(labels.drop_last(), c) + (if labels.last() == c {
            1int
        } else {
            0int
        })
    }
}

/// The summed sizes of clusters 1 through `c`.
pub open spec fn cluster_size_sum(labels: Seq<usize>, c: int) -> int
    decreases c,
{
    if c <= 0 {
        0
    } else {
        cluster_size_sum(labels, c - 1) + count_label(labels, c as usize)
    }
}

proof fn lemma_size_sum_drop(labels: Seq<usize>, c: int)
    requires
        labels.len() > 0,
        c <= usize::MAX,
    ensures
        cluster_size_sum(labels, c) == cluster_size_sum(labels.drop_last(), c) + (if 1
            <= labels.last() <= c {
            1int
        } else {
            0int
        }),
    decreases c,
{
    if c > 0 {
        lemma_size_sum_drop(labels, c - 1);
        assert(count_label(labels, c as usize) == count_label(labels.drop_last(), c as usize)
            + (if labels.last() == c as usize {
                1int
            } else {
                0int
            }));
    }
}

/// The noise count plus the sizes of all clusters accounts for every
/// sample exactly once, for any labelling whose labels stay at most
/// `bound`. With the clusterer's own guarantee that labels are 0 or at
/// most the sample count, this is the label partition of a clustering
/// run.
pub proof fn lemma_label_partition(labels: Seq<usize>, bound: usize)
    requires
        forall|t: int| 0 <= t < labels.len() ==> (#[trigger] labels[t]) <= bound,
    ensures
        count_label(labels, 0) + cluster_size_sum(labels, bound as int) == labels.len(),
    decreases labels.len(),
{
    if labels.len() == 0 {
        lemma_size_sum_empty(labels, bound as int);
    } else {
        let prefix = labels.drop_last();
        assert(forall|t: int| 0 <= t < prefix.len() ==> (#[trigger] prefix[t]) == labels[t]);
        lemma_label_partition(prefix, bound);
        lemma_size_sum_drop(labels, bound as int);
    }
}

proof fn lemma_size_sum_empty(labels: Seq<usize>, c: int)
    requires
        labels.len() == 0,
    ensures
        cluster_size_sum(labels, c) == 0,
    decreases c,
{
    if c > 0 {
        lemma_size_sum_empty(labels, c - 1);
    }
}

/// Running the clusterer twice over the same samples with the same
/// parameters yields identical labels: the label sequence is a function
/// of the samples and parameters alone, with no hidden state.
pub proof fn lemma_clusterer_idempotent(
    data: Seq<MotionVector>,
    eps: int,
    min_points: usize,
    first_run: Seq<usize>,
    second_run: Seq<usize>,
)
    requires
        first_run == dbscan_spec(data, eps, min_points),
        second_run == dbscan_spec(data, eps, min_points),
    ensures
        first_run == second_run,
{
}

/// Bounding-box containment is transitive: a box inside a second box
/// that lies inside a third also lies inside the third.
pub proof fn lemma_within_transitive(a: BBox, b: BBox, c: BBox)
    requires
        box_within(a, b),
        box_within(b, c),
    ensures
        box_within(a, c),
{
}

/// Bounding-box containment admits no strict cycle: two boxes each
/// inside the other are the same box.
pub proof fn lemma_within_antisymmetric(a: BBox, b: BBox)
    requires
        box_within(a, b),
        box_within(b, a),
    ensures
        a == b,
{
}

proof fn lemma_first_overlap_from_at(h: Seq<ClusterV>, b: BBox, i: int, m: int)
    requires
        0 <= i <= m < h.len(),
        boxes_overlap(b, h[m].bbox),
        forall|j: int| i <= j < m ==> !boxes_overlap(b, (#[trigger] h[j]).bbox),
    ensures
        first_overlap_from(h, b, i) == m,
    decreases m - i,
{
    if i < m {
        lemma_first_overlap_from_at(h, b, i + 1, m);
    }
}

/// A refresh keeps identity: when a tracked cluster's box overlaps a
/// history entry first, that entry keeps its identity and birth, its age
/// becomes the time since birth, no identity is allocated, and every
/// other entry stands untouched.
pub proof fn lemma_track_match_keeps_identity(
    h: Seq<ClusterV>,
    last_id: usize,
    c: ClusterV,
    now: u128,
)
    requires
        first_overlap(h, c.bbox) != -1,
    ensures
        ({
            let m = first_overlap(h, c.bbox);
            let t = track_step(h, last_id, c, now);
            &&& 0 <= m < h.len()
            &&& t.0.len() == h.len()
            &&& t.1 == last_id
            &&& t.0[m].id == h[m].id
            &&& t.0[m].birth == h[m].birth
            &&& t.0[m].age == (now - h[m].birth) as u128
            &&& t.0[m].active == now
            &&& forall|j: int| 0 <= j < h.len() && j != m ==> t.0[j] == h[j]
        }),
{
    lemma_first_overlap_props(h, c.bbox, 0);
}

/// Tracking one constant cluster at each of the given times in turn.
pub open spec fn track_repeat(
    h: Seq<ClusterV>,
    last_id: usize,
    c: ClusterV,
    times: Seq<u128>,
) -> (Seq<ClusterV>, usize)
    decreases times.len(),
{
    if times.len() == 0 {
        (h, last_id)
    } else {
        let s = track_step(h, last_id, c, times[0]);
        track_repeat(s.0, s.1, c, times.drop_first())
    }
}

proof fn lemma_refresh_repeat(
    h: Seq<ClusterV>,
    last_id: usize,
    c: ClusterV,
    times: Seq<u128>,
    m: int,
)
    requires
        0 <= m < h.len(),
        h[m].bbox == c.bbox,
        boxes_overlap(c.bbox, c.bbox),
        forall|j: int| 0 <= j < m ==> !boxes_overlap(c.bbox, (#[trigger] h[j]).bbox),
        forall|k: int| 0 <= k < times.len() ==> h[m].birth <= (#[trigger] times[k]),
    ensures
        ({
            let t = track_repeat(h, last_id, c, times);
            &&& t.0.len() == h.len()
            &&& t.1 == last_id
            &&& t.0[m].id == h[m].id
            &&& t.0[m].birth == h[m].birth
            &&& (times.len() == 0 ==> t.0[m] == h[m])
            &&& (times.len() >= 1 ==> t.0[m].age == (times.last() - h[m].birth) as u128
                && t.0[m].active == times.last() && t.0[m].bbox == c.bbox)
            &&& forall|j: int| 0 <= j < h.len() && j != m ==> t.0[j] == h[j]
        }),
    decreases times.len(),
{
    if times.len() > 0 {
        lemma_first_overlap_from_at(h, c.bbox, 0, m);
        let s = track_step(h, last_id, c, times[0]);
        assert(s.0[m].bbox == c.bbox);
        assert(forall|j: int| 0 <= j < m ==> s.0[j] == h[j]);
        assert forall|k: int|
            0 <= k < times.drop_first().len() implies s.0[m].birth <= (#[trigger] times
            .drop_first()[k]) by {
            assert(times.drop_first()[k] == times[k + 1]);
        }
        lemma_refresh_repeat(s.0, s.1, c, times.drop_first(), m);
        let t = track_repeat(h, last_id, c, times);
        let t2 = track_repeat(s.0, s.1, c, times.drop_first());
        assert(t == t2);
        if times.len() == 1 {
            assert(t2.0[m] == s.0[m]);
        } else {
            assert(times.drop_first().last() == times.last());
        }
        assert forall|j: int| 0 <= j < h.len() && j != m implies t.0[j] == h[j] by {
            assert(t.0[j] == t2.0[j]);
            assert(t2.0[j] == s.0[j]);
        }
    }
}

/// Temporal identity stability: a cluster whose bounding box stays
/// constant across consecutive frames, and which overlaps nothing else,
/// is created once under a fresh identity and then keeps that identity;
/// after the last frame its entry's age is the last frame time minus the
/// first, and the rest of the history stands untouched.
pub proof fn lemma_identity_stability(
    h: Seq<ClusterV>,
    last_id: usize,
    c: ClusterV,
    times: Seq<u128>,
)
    requires
        times.len() >= 1,
        boxes_overlap(c.bbox, c.bbox),
        forall|j: int| 0 <= j < h.len() ==> !boxes_overlap(c.bbox, (#[trigger] h[j]).bbox),
        forall|k: int| 0 <= k < times.len() ==> times[0] <= (#[trigger] times[k]),
        last_id < usize::MAX,
    ensures
        ({
            let t = track_repeat(h, last_id, c, times);
            let m = h.len() as int;
            &&& t.0.len() == h.len() + 1
            &&& t.1 == last_id + 1
            &&& t.0[m].id == last_id + 1
            &&& t.0[m].birth == times[0]
            &&& t.0[m].age == (times.last() - times[0]) as u128
            &&& forall|j: int| 0 <= j < h.len() ==> t.0[j] == h[j]
        }),
{
    lemma_first_overlap_props(h, c.bbox, 0);
    assert(first_overlap(h, c.bbox) == -1);
    let s = track_step(h, last_id, c, times[0]);
    let e = fresh_entry(c, times[0], (last_id + 1) as usize);
    assert(s.0 == h.push(e));
    let m = h.len() as int;
    assert(s.0[m] == e);
    assert(forall|j: int| 0 <= j < m ==> s.0[j] == h[j]);
    assert forall|k: int|
        0 <= k < times.drop_first().len() implies s.0[m].birth <= (#[trigger] times
        .drop_first()[k]) by {
        assert(times.drop_first()[k] == times[k + 1]);
    }
    lemma_refresh_repeat(s.0, s.1, c, times.drop_first(), m);
    let t = track_repeat(h, last_id, c, times);
    let t2 = track_repeat(s.0, s.1, c, times.drop_first());
    assert(t == t2);
    if times.len() == 1 {
        assert(t2.0[m] == e);
    } else {
        assert(times.drop_first().last() == times.last());
    }
    assert forall|j: int| 0 <= j < h.len() implies t.0[j] == h[j] by {
        assert(t.0[j] == t2.0[j]);
        assert(t2.0[j] == s.0[j]);
    }
}

/// Expiration boundary: an entry last active at time T still stands
/// when expiration runs at exactly T plus the threshold, and no entry
/// with that last-active time stands when expiration runs any later.
pub proof fn lemma_expiration_boundary(
    h: Seq<ClusterV>,
    i: int,
    threshold: u128,
    at_limit: u128,
    later: u128,
)
    requires
        0 <= i < h.len(),
        h[i].active + threshold <= u128::MAX,
        at_limit == h[i].active + threshold,
        later > h[i].active + threshold,
    ensures
        expire_spec(h, at_limit, threshold).contains(h[i]),
        !expire_spec(h, later, threshold).contains(h[i]),
{
    let keep_now = |e: ClusterV| at_limit - e.active <= threshold;
    assert(keep_now(h[i]));
    h.lemma_filter_contains(keep_now, i);
    let keep_later = |e: ClusterV| later - e.active <= threshold;
    let f2 = h.filter(keep_later);
    if f2.contains(h[i]) {
        let k = choose|k: int| 0 <= k < f2.len() && f2[k] == h[i];
        h.lemma_filter_pred(keep_later, k);
        assert(false);
    }
}

/// One tracking step keeps the history well formed: identities stay
/// positive, at most the counter, and strictly increasing in history
/// order, so an identity once assigned is never reused.
pub proof fn lemma_track_step_preserves_wf(
    h: Seq<ClusterV>,
    last_id: usize,
    c: ClusterV,
    now: u128,
)
    requires
        hist_wf(h, last_id),
        last_id < usize::MAX,
        forall|j: int| 0 <= j < h.len() ==> (#[trigger] h[j]).active <= now,
    ensures
        ({
            let t = track_step(h, last_id, c, now);
            &&& hist_wf(t.0, t.1)
            &&& last_id <= t.1
            &&& forall|j: int| 0 <= j < t.0.len() ==> (#[trigger] t.0[j]).active <= now
        }),
{
    lemma_first_overlap_props(h, c.bbox, 0);
    let fo = first_overlap(h, c.bbox);
    let t = track_step(h, last_id, c, now);
    assert forall|j: int| 0 <= j < t.0.len() implies 1 <= (#[trigger] t.0[j]).id <= t.1
        && t.0[j].birth <= t.0[j].active && t.0[j].active <= now by {
        if fo == -1 && j == h.len() {
            assert(t.0[j] == fresh_entry(c, now, (last_id + 1) as usize));
        } else if fo != -1 && j == fo {
            assert(t.0[j].id == h[fo].id && t.0[j].birth == h[fo].birth && t.0[j].active
                == now);
        } else {
            assert(t.0[j] == h[j]);
        }
    }
    assert forall|i: int, j: int| 0 <= i < j < t.0.len() implies (#[trigger] t.0[i]).id < (
    #[trigger] t.0[j]).id by {
        if fo == -1 && j == h.len() {
            assert(t.0[i].id <= last_id);
            assert(t.0[j].id == last_id + 1);
        } else {
            assert(t.0[i].id == h[i].id && t.0[j].id == h[j].id);
        }
    }
}

/// Tracking a whole frame keeps the history well formed.
pub proof fn lemma_track_frame_preserves_wf(
    h: Seq<ClusterV>,
    last_id: usize,
    cs: Seq<ClusterV>,
    now: u128,
)
    requires
        hist_wf(h, last_id),
        last_id + cs.len() <= usize::MAX,
        forall|j: int| 0 <= j < h.len() ==> (#[trigger] h[j]).active <= now,
    ensures
        ({
            let t = track_frame(h, last_id, cs, now);
            &&& hist_wf(t.0, t.1)
            &&& last_id <= t.1 <= last_id + cs.len()
        }),
    decreases cs.len(),
{
    if cs.len() > 0 {
        if cs[0].within {
            lemma_track_frame_preserves_wf(h, last_id, cs.drop_first(), now);
        } else {
            lemma_track_step_preserves_wf(h, last_id, cs[0], now);
            let s = track_step(h, last_id, cs[0], now);
            lemma_track_frame_preserves_wf(s.0, s.1, cs.drop_first(), now);
        }
    }
}

proof fn lemma_filter_keeps_wf(h: Seq<ClusterV>, last_id: usize, pred: spec_fn(ClusterV) -> bool)
    requires
        hist_wf(h, last_id),
    ensures
        hist_wf(h.filter(pred), last_id),
    decreases h.len(),
{
    reveal(Seq::filter);
    if h.len() > 0 {
        let prev = h.drop_last();
        assert(forall|t: int| 0 <= t < prev.len() ==> (#[trigger] prev[t]) == h[t]);
        lemma_filter_keeps_wf(prev, last_id, pred);
        let f = h.filter(pred);
        let fp = prev.filter(pred);
        if pred(h.last()) {
            assert(f == fp.push(h.last()));
            assert forall|a: int| 0 <= a < fp.len() implies (#[trigger] fp[a]).id
                < h.last().id by {
                assert(fp.contains(fp[a]));
                prev.lemma_filter_contains_rev(pred, fp[a]);
                let b = choose|b: int| 0 <= b < prev.len() && prev[b] == fp[a];
                assert(h[b].id < h[h.len() - 1].id);
            }
        }
    }
}

/// Expiration keeps the history well formed: the surviving entries keep
/// their order, so identities stay strictly increasing and unrepeated.
pub proof fn lemma_expire_preserves_wf(
    h: Seq<ClusterV>,
    last_id: usize,
    now: u128,
    expire_after: u128,
)
    requires
        hist_wf(h, last_id),
    ensures
        hist_wf(expire_spec(h, now, expire_after), last_id),
{
    lemma_filter_keeps_wf(h, last_id, |e: ClusterV| now - e.active <= expire_after);
}

/// A cluster's bounding box covers every member's coordinate, for
/// members whose coordinates lie under the seed box's extremes.
pub proof fn lemma_bbox_covers_members(points: Seq<MotionVector>, t: int)
    requires
        0 <= t < points.len(),
        forall|j: int|
            0 <= j < points.len() ==> 0 <= (#[trigger] points[j]).x < 1000 && 0 <= points[j].y
                < 1000,
    ensures
        ({
            let b = bbox_of(points);
            &&& b.top <= points[t].y <= b.bottom
            &&& b.left <= points[t].x <= b.right
        }),
    decreases points.len(),
{
    let prev = points.drop_last();
    assert(forall|j: int| 0 <= j < prev.len() ==> (#[trigger] prev[j]) == points[j]);
    if t < points.len() - 1 {
        lemma_bbox_covers_members(prev, t);
        lemma_bbox_add_grows(prev, points.last());
    }
}

proof fn lemma_bbox_add_grows(points: Seq<MotionVector>, mv: MotionVector)
    ensures
        ({
            let b = bbox_of(points);
            let b2 = bbox_add(b, mv);
            b2.top <= b.top && b2.left <= b.left && b2.bottom >= b.bottom && b2.right >= b.right
        }),
{
}

/// Reduction round trip: restoring a kept candidate's coordinate from
/// the saved original one reproduces the pre-reduction coordinate
/// exactly.
pub proof fn lemma_reduction_round_trip(cands: Seq<MotionVector>, factor: int, j: int)
    requires
        1 <= factor,
        0 <= j < reduce_spec(cands, factor).len(),
    ensures
        ({
            let back = restored_sample(reduce_spec(cands, factor)[j]);
            &&& back.x == cands[j * factor].x
            &&& back.y == cands[j * factor].y
        }),
{
    assert(j * factor >= 0) by (nonlinear_arith)
        requires
            j >= 0,
            factor >= 1,
    ;
}

} // verus!
