//! Cluster refinement: group the clusterer's labels into per-frame
//! clusters, restore reduced coordinates, compute bounding boxes and
//! means, resolve full containment between same-frame clusters, and hand
//! the independent clusters to the temporal tracker.

use crate::cluster::{box_within, copy_cluster, seed_bbox, views_of, BBox, Cluster, ClusterV};
use crate::motion::MotionVector;
use crate::reduce::restored_sample;
use crate::tracker::{track_frame, track_step, track_temporal};
use vstd::prelude::*;

verus! {

/// The candidates after coordinate restoration: when reduction was
/// applied, every labelled candidate gets its working coordinate back
/// from the saved original one.
pub open spec fn restore_all(cands: Seq<MotionVector>, labels: Seq<usize>, reduced: bool) -> Seq<
    MotionVector,
> {
    Seq::new(
        cands.len(),
        |i: int|
            if reduced && labels[i] != 0 {
                restored_sample(cands[i])
            } else {
                cands[i]
            },
    )
}

/// The members of cluster `label` among the first `k` candidates, in
/// candidate order.
pub open spec fn members_upto(
    cands: Seq<MotionVector>,
    labels: Seq<usize>,
    label: usize,
    k: int,
) -> Seq<MotionVector>
    decreases k,
{
    if k <= 0 {
        Seq::<MotionVector>::empty()
    } else if labels[k - 1] == label {
        members_upto(cands, labels, label, k - 1).push(cands[k - 1])
    } else {
        members_upto(cands, labels, label, k - 1)
    }
}

/// The members of cluster `label`, in candidate order.
pub open spec fn members_of(cands: Seq<MotionVector>, labels: Seq<usize>, label: usize) -> Seq<
    MotionVector,
> {
    members_upto(cands, labels, label, cands.len() as int)
}

/// A bounding box extended to cover one more member.
pub open spec fn bbox_add(b: BBox, mv: MotionVector) -> BBox {
    BBox {
        top: if mv.y < b.top {
            mv.y
        } else {
            b.top
        },
        right: if mv.x > b.right {
            mv.x
        } else {
            b.right
        },
        bottom: if mv.y > b.bottom {
            mv.y
        } else {
            b.bottom
        },
        left: if mv.x < b.left {
            mv.x
        } else {
            b.left
        },
    }
}

/// The bounding box of a member list, grown from the seed box.
pub open spec fn bbox_of(points: Seq<MotionVector>) -> BBox
    decreases points.len(),
{
    if points.len() == 0 {
        seed_bbox()
    } else {
        bbox_add(bbox_of(points.drop_last()), points.last())
    }
}

/// The sum of the members' directions.
pub open spec fn dir_sum(points: Seq<MotionVector>) -> int
    decreases points.len(),
{
    if points.len() == 0 {
        0
    } else {
        dir_sum(points.drop_last()) + points.last().dir
    }
}

/// The sum of the members' magnitudes.
pub open spec fn mag_sum(points: Seq<MotionVector>) -> int
    decreases points.len(),
{
    if points.len() == 0 {
        0
    } else {
        mag_sum(points.drop_last()) + points.last().mag
    }
}

/// The per-frame cluster built from a non-empty member list at time
/// `now`: bounding box covering the members, direction and magnitude as
/// arithmetic means over the members, identity and tracking fields still
/// unset.
pub open spec fn refined_cluster(points: Seq<MotionVector>, now: u128) -> ClusterV {
    ClusterV {
        id: 0,
        points: points,
        dir: (dir_sum(points) / points.len() as int) as u64,
        mag: (mag_sum(points) / points.len() as int) as u64,
        bbox: bbox_of(points),
        within: false,
        birth: now,
        age: 0,
        active: 0,
        size: 0,
    }
}

/// The greatest label among the first `k`.
pub open spec fn max_label_upto(labels: Seq<usize>, k: int) -> usize
    decreases k,
{
    if k <= 0 {
        0
    } else {
        let m = max_label_upto(labels, k - 1);
        if labels[k - 1] > m {
            labels[k - 1]
        } else {
            m
        }
    }
}

/// The greatest label of the frame.
pub open spec fn max_label(labels: Seq<usize>) -> usize {
    max_label_upto(labels, labels.len() as int)
}

/// One refined cluster per non-empty label up to `maxc`, in ascending
/// label order.
pub open spec fn frame_clusters(
    cands: Seq<MotionVector>,
    labels: Seq<usize>,
    maxc: int,
    now: u128,
) -> Seq<ClusterV>
    decreases maxc,
{
    if maxc <= 0 {
        Seq::<ClusterV>::empty()
    } else {
        let prev = frame_clusters(cands, labels, maxc - 1, now);
        let ms = members_of(cands, labels, maxc as usize);
        if ms.len() > 0 {
            prev.push(refined_cluster(ms, now))
        } else {
            prev
        }
    }
}

/// Whether cluster `k` of the frame lies fully within some other cluster
/// of the same frame.
pub open spec fn within_flag(cs: Seq<ClusterV>, k: int) -> bool {
    exists|j: int| 0 <= j < cs.len() && j != k && box_within(cs[k].bbox, cs[j].bbox)
}

/// A cluster with its nesting flag set.
pub open spec fn set_within(c: ClusterV, w: bool) -> ClusterV {
    ClusterV {
        id: c.id,
        points: c.points,
        dir: c.dir,
        mag: c.mag,
        bbox: c.bbox,
        within: w,
        birth: c.birth,
        age: c.age,
        active: c.active,
        size: c.size,
    }
}

/// The frame's clusters with their nesting flags resolved.
pub open spec fn with_within_flags(cs: Seq<ClusterV>) -> Seq<ClusterV> {
    Seq::new(cs.len(), |k: int| set_within(cs[k], within_flag(cs, k)))
}

pub proof fn lemma_max_label_bound(labels: Seq<usize>, k: int, bound: usize)
    requires
        k <= labels.len(),
        forall|t: int| 0 <= t < labels.len() ==> (#[trigger] labels[t]) <= bound,
    ensures
        max_label_upto(labels, k) <= bound,
    decreases k,
{
    if k > 0 {
        lemma_max_label_bound(labels, k - 1, bound);
    }
}

pub proof fn lemma_frame_clusters_len(
    cands: Seq<MotionVector>,
    labels: Seq<usize>,
    maxc: int,
    now: u128,
)
    ensures
        frame_clusters(cands, labels, maxc, now).len() <= (if maxc >= 0 {
            maxc
        } else {
            0
        }),
    decreases maxc,
{
    if maxc > 0 {
        lemma_frame_clusters_len(cands, labels, maxc - 1, now);
    }
}

pub proof fn lemma_track_frame_len(h: Seq<ClusterV>, id: usize, cs: Seq<ClusterV>, now: u128)
    ensures
        track_frame(h, id, cs, now).2.len() == cs.len(),
    decreases cs.len(),
{
    if cs.len() > 0 {
        if cs[0].within {
            lemma_track_frame_len(h, id, cs.drop_first(), now);
        } else {
            let s = track_step(h, id, cs[0], now);
            lemma_track_frame_len(s.0, s.1, cs.drop_first(), now);
        }
    }
}

/// Restore every labelled candidate's coordinate from the saved original
/// one, when reduction was applied.
fn restore_candidates(candidates: &mut Vec<MotionVector>, results: &Vec<usize>, reduced: bool)
    requires
        results@.len() == old(candidates)@.len(),
    ensures
        final(candidates)@ == restore_all(old(candidates)@, results@, reduced),
{
    let ghost c0 = old(candidates)@;
    if reduced {
        let n = candidates.len();
        for i in 0..n
            invariant
                candidates@.len() == n,
                results@.len() == n,
                c0.len() == n,
                forall|t: int| i <= t < n ==> (#[trigger] candidates@[t]) == c0[t],
                forall|t: int|
                    0 <= t < i ==> (#[trigger] candidates@[t]) == (if results@[t] != 0 {
                        restored_sample(c0[t])
                    } else {
                        c0[t]
                    }),
        {
            if results[i] != 0 {
                let mut mv = candidates[i];
                mv.x = mv.org_x;
                mv.y = mv.org_y;
                candidates[i] = mv;
            }
        }
        proof {
            assert(candidates@ =~= restore_all(c0, results@, true));
        }
    } else {
        proof {
            assert(candidates@ =~= restore_all(c0, results@, false));
        }
    }
}

/// Build the cluster of one label: gather its members in candidate
/// order, grow the bounding box, and turn the direction and magnitude
/// sums into means. Yields nothing when the label has no members.
fn gather_cluster(
    candidates: &Vec<MotionVector>,
    results: &Vec<usize>,
    label: usize,
    now: u128,
) -> (r: Option<Cluster>)
    requires
        results@.len() == candidates@.len(),
        candidates@.len() < 0xffff,
    ensures
        ({
            let ms = members_of(candidates@, results@, label);
            match r {
                Some(cl) => ms.len() > 0 && cl@ == refined_cluster(ms, now),
                None => ms.len() == 0,
            }
        }),
{
    let n = candidates.len();
    let mut pts: Vec<MotionVector> = Vec::new();
    let mut dir_s: u64 = 0;
    let mut mag_s: u64 = 0;
    let mut bb = BBox { top: 1000, right: 0, bottom: 0, left: 1000 };
    for i in 0..n
        invariant
            n == candidates@.len(),
            results@.len() == n,
            n < 0xffff,
            pts@ == members_upto(candidates@, results@, label, i as int),
            pts@.len() <= i,
            bb == bbox_of(pts@),
            dir_s == dir_sum(pts@),
            mag_s == mag_sum(pts@),
            dir_s <= pts@.len() * 0xffff_ffffu64,
            mag_s <= pts@.len() * 0xffff_ffffu64,
    {
        if results[i] == label {
            let mv = candidates[i];
            let ghost pts0 = pts@;
            pts.push(mv);
            if mv.y < bb.top {
                bb.top = mv.y;
            }
            if mv.x > bb.right {
                bb.right = mv.x;
            }
            if mv.y > bb.bottom {
                bb.bottom = mv.y;
            }
            if mv.x < bb.left {
                bb.left = mv.x;
            }
            dir_s = dir_s + mv.dir as u64;
            mag_s = mag_s + mv.mag as u64;
            proof {
                assert(pts@.drop_last() =~= pts0);
            }
        }
        proof {
            assert(pts@ == members_upto(candidates@, results@, label, i + 1));
        }
    }
    proof {
        assert(members_of(candidates@, results@, label) == members_upto(
            candidates@,
            results@,
            label,
            n as int,
        ));
    }
    if pts.len() > 0 {
        let len64 = pts.len() as u64;
        let ghost ms = pts@;
        let cl = Cluster {
            id: 0,
            points: pts,
            dir: dir_s / len64,
            mag: mag_s / len64,
            bbox: bb,
            within: false,
            birth: now,
            age: 0,
            active: 0,
            size: 0,
        };
        proof {
            assert(cl@ == refined_cluster(ms, now));
        }
        Some(cl)
    } else {
        None
    }
}

/// Group the labelled candidates into one refined cluster per label, in
/// ascending label order.
fn build_frame_clusters(
    candidates: &Vec<MotionVector>,
    results: &Vec<usize>,
    now: u128,
) -> (cs: Vec<Cluster>)
    requires
        results@.len() == candidates@.len(),
        candidates@.len() < 0xffff,
        forall|t: int| 0 <= t < results@.len() ==> (#[trigger] results@[t]) <= results@.len(),
    ensures
        views_of(cs@) == frame_clusters(
            candidates@,
            results@,
            max_label(results@) as int,
            now,
        ),
        cs@.len() <= max_label(results@),
{
    let n = candidates.len();
    let mut maxl: usize = 0;
    for i in 0..n
        invariant
            n == results@.len(),
            forall|t: int| 0 <= t < results@.len() ==> (#[trigger] results@[t]) <= n,
            maxl == max_label_upto(results@, i as int),
            maxl <= n,
    {
        if results[i] > maxl {
            maxl = results[i];
        }
        proof {
            assert(maxl == max_label_upto(results@, i + 1));
        }
    }
    proof {
        assert(maxl == max_label(results@));
    }
    let mut cs: Vec<Cluster> = Vec::new();
    let mut c: usize = 1;
    while c <= maxl
        invariant
            n == candidates@.len(),
            results@.len() == n,
            n < 0xffff,
            maxl == max_label(results@),
            maxl <= n,
            1 <= c <= maxl + 1,
            views_of(cs@) == frame_clusters(candidates@, results@, c - 1, now),
            cs@.len() <= c - 1,
        decreases maxl + 1 - c,
    {
        match gather_cluster(candidates, results, c, now) {
            Some(cl) => {
                let ghost v0 = views_of(cs@);
                let ghost clv = cl@;
                cs.push(cl);
                proof {
                    assert(views_of(cs@) =~= v0.push(clv));
                    assert(views_of(cs@) == frame_clusters(candidates@, results@, c as int, now));
                }
            },
            None => {
                proof {
                    assert(views_of(cs@) == frame_clusters(candidates@, results@, c as int, now));
                }
            },
        }
        c = c + 1;
    }
    cs
}

/// Whether the cluster at `my_index` lies fully within another cluster
/// of the list.
pub fn is_within(my_index: usize, others: &Vec<Cluster>) -> (r: bool)
    requires
        my_index < others@.len(),
    ensures
        r == exists|j: int|
            0 <= j < others@.len() && j != my_index && box_within(
                others@[my_index as int].bbox,
                others@[j].bbox,
            ),
{
    let n = others.len();
    for k in 0..n
        invariant
            n == others@.len(),
            my_index < n,
            forall|j: int|
                0 <= j < k && j != my_index ==> !box_within(
                    others@[my_index as int].bbox,
                    (#[trigger] others@[j]).bbox,
                ),
    {
        if k != my_index {
            let a = &others[my_index];
            let b = &others[k];
            if a.bbox.top >= b.bbox.top && a.bbox.bottom <= b.bbox.bottom && a.bbox.left
                >= b.bbox.left && a.bbox.right <= b.bbox.right {
                return true;
            }
        }
    }
    false
}

/// Set every cluster's nesting flag from the containment test against
/// the other clusters of the frame.
fn apply_within_flags(clusters: &mut Vec<Cluster>)
    ensures
        views_of(final(clusters)@) == with_within_flags(views_of(old(clusters)@)),
{
    let ghost base = views_of(old(clusters)@);
    let m = clusters.len();
    for k in 0..m
        invariant
            clusters@.len() == m,
            base.len() == m,
            base == views_of(old(clusters)@),
            forall|t: int| 0 <= t < m ==> ((#[trigger] clusters@[t])@).bbox == base[t].bbox,
            forall|t: int| k <= t < m ==> (#[trigger] clusters@[t])@ == base[t],
            forall|t: int|
                0 <= t < k ==> (#[trigger] clusters@[t])@ == set_within(
                    base[t],
                    within_flag(base, t),
                ),
    {
        let w = is_within(k, clusters);
        proof {
            if w {
                let j = choose|j: int|
                    0 <= j < clusters@.len() && j != k && box_within(
                        clusters@[k as int].bbox,
                        clusters@[j].bbox,
                    );
                assert(clusters@[j]@.bbox == base[j].bbox);
                assert(clusters@[k as int]@.bbox == base[k as int].bbox);
                assert(box_within(base[k as int].bbox, base[j].bbox));
                assert(within_flag(base, k as int));
            } else {
                assert forall|j: int|
                    0 <= j < base.len() && j != k implies !box_within(
                    base[k as int].bbox,
                    base[j].bbox,
                ) by {
                    assert(clusters@[j]@.bbox == base[j].bbox);
                    assert(clusters@[k as int]@.bbox == base[k as int].bbox);
                }
                assert(!within_flag(base, k as int));
            }
        }
        let mut cc = copy_cluster(&clusters[k]);
        cc.within = w;
        clusters[k] = cc;
    }
    proof {
        assert(views_of(clusters@) =~= with_within_flags(base));
    }
}

/// Track every independent cluster of the frame against the history, in
/// frame order; nested clusters are left alone.
fn track_clusters(
    clusters: &mut Vec<Cluster>,
    history: &mut Vec<Cluster>,
    now: u128,
    last_history_id: &mut usize,
)
    requires
        forall|j: int|
            0 <= j < old(history)@.len() ==> (#[trigger] old(history)@[j]).birth <= now,
        *old(last_history_id) + old(clusters)@.len() < usize::MAX,
    ensures
        ({
            let t = track_frame(
                views_of(old(history)@),
                *old(last_history_id),
                views_of(old(clusters)@),
                now,
            );
            &&& views_of(final(clusters)@) == t.2
            &&& views_of(final(history)@) == t.0
            &&& *final(last_history_id) == t.1
        }),
{
    let ghost cs0 = views_of(old(clusters)@);
    let ghost h0 = views_of(old(history)@);
    let ghost id0 = *old(last_history_id);
    let ghost target = track_frame(h0, id0, cs0, now);
    proof {
        lemma_track_frame_len(h0, id0, cs0, now);
        assert(cs0.skip(0) =~= cs0);
        assert(target.2.skip(0) =~= target.2);
    }
    let m = clusters.len();
    for k in 0..m
        invariant
            clusters@.len() == m,
            cs0.len() == m,
            target == track_frame(h0, id0, cs0, now),
            target.2.len() == m,
            forall|t: int| k <= t < m ==> (#[trigger] clusters@[t])@ == cs0[t],
            forall|t: int| 0 <= t < k ==> (#[trigger] clusters@[t])@ == target.2[t],
            track_frame(views_of(history@), *last_history_id, cs0.skip(k as int), now).0
                == target.0,
            track_frame(views_of(history@), *last_history_id, cs0.skip(k as int), now).1
                == target.1,
            track_frame(views_of(history@), *last_history_id, cs0.skip(k as int), now).2
                == target.2.skip(k as int),
            forall|j: int| 0 <= j < history@.len() ==> (#[trigger] history@[j]).birth <= now,
            *last_history_id <= id0 + k,
            id0 + m < usize::MAX,
    {
        let ghost h_cur = views_of(history@);
        let ghost id_cur = *last_history_id;
        let ghost rest = cs0.skip(k as int);
        proof {
            assert(rest[0] == cs0[k as int]);
            assert(rest.drop_first() =~= cs0.skip(k + 1));
            assert(target.2.skip(k as int).drop_first() =~= target.2.skip(k + 1));
        }
        if clusters[k].within {
            proof {
                let r = track_frame(h_cur, id_cur, rest.drop_first(), now);
                assert(track_frame(h_cur, id_cur, rest, now) == (
                    r.0,
                    r.1,
                    seq![rest[0]] + r.2,
                ));
                assert((seq![rest[0]] + r.2).drop_first() =~= r.2);
                assert(r.2 =~= target.2.skip(k + 1));
                assert(target.2[k as int] == (seq![rest[0]] + r.2)[0]);
            }
        } else {
            proof {
                assert forall|j: int| 0 <= j < h_cur.len() implies (#[trigger] h_cur[j]).birth
                    <= now by {
                    assert(h_cur[j] == history@[j]@);
                }
            }
            let mut c = copy_cluster(&clusters[k]);
            track_temporal(history, &mut c, now, last_history_id);
            clusters[k] = c;
            proof {
                let s = track_step(h_cur, id_cur, rest[0], now);
                let r = track_frame(s.0, s.1, rest.drop_first(), now);
                assert(track_frame(h_cur, id_cur, rest, now) == (
                    r.0,
                    r.1,
                    seq![s.2] + r.2,
                ));
                assert((seq![s.2] + r.2).drop_first() =~= r.2);
                assert(r.2 =~= target.2.skip(k + 1));
                assert(target.2[k as int] == (seq![s.2] + r.2)[0]);
                assert(views_of(history@) == s.0);
                assert(*last_history_id == s.1);
                assert(clusters@[k as int]@ == s.2);
                let fo = crate::tracker::first_overlap(h_cur, rest[0].bbox);
                crate::tracker::lemma_first_overlap_props(h_cur, rest[0].bbox, 0);
                assert forall|j: int|
                    0 <= j < history@.len() implies (#[trigger] history@[j]).birth <= now by {
                    assert(history@[j]@ == views_of(history@)[j]);
                    assert(views_of(history@)[j] == s.0[j]);
                    if fo == -1 {
                        if j < h_cur.len() {
                            assert(s.0[j] == h_cur[j]);
                        } else {
                            assert(s.0[j].birth == now);
                        }
                    } else {
                        if j == fo {
                            assert(s.0[j].birth == h_cur[fo].birth);
                        } else {
                            assert(s.0[j] == h_cur[j]);
                        }
                    }
                }
            }
        }
    }
    proof {
        assert(cs0.skip(m as int) =~= Seq::<ClusterV>::empty());
        assert(track_frame(views_of(history@), *last_history_id, cs0.skip(m as int), now) == (
            views_of(history@),
            *last_history_id,
            Seq::<ClusterV>::empty(),
        ));
        assert(target.2.skip(m as int) =~= Seq::<ClusterV>::empty());
        assert(views_of(clusters@) =~= target.2);
    }
}

/// Refine one frame: restore reduced coordinates, group the labelled
/// candidates into clusters with bounding boxes and means, resolve
/// nesting, and track the independent clusters against the history.
///
/// The returned list holds every cluster of the frame, nested ones
/// included; the history and the identity counter advance exactly as the
/// tracker's fold over the independent clusters says.
pub fn refine_clusters(
    candidates: &mut Vec<MotionVector>,
    results: &Vec<usize>,
    reduced: bool,
    history: &mut Vec<Cluster>,
    now: u128,
    last_history_id: &mut usize,
) -> (clusters: Vec<Cluster>)
    requires
        results@.len() == old(candidates)@.len(),
        old(candidates)@.len() < 0xffff,
        forall|t: int| 0 <= t < results@.len() ==> (#[trigger] results@[t]) <= results@.len(),
        forall|j: int|
            0 <= j < old(history)@.len() ==> (#[trigger] old(history)@[j]).birth <= now,
        *old(last_history_id) + results@.len() < usize::MAX,
    ensures
        final(candidates)@ == restore_all(old(candidates)@, results@, reduced),
        ({
            let restored = restore_all(old(candidates)@, results@, reduced);
            let base = frame_clusters(restored, results@, max_label(results@) as int, now);
            let flagged = with_within_flags(base);
            let t = track_frame(
                views_of(old(history)@),
                *old(last_history_id),
                flagged,
                now,
            );
            &&& views_of(clusters@) == t.2
            &&& views_of(final(history)@) == t.0
            &&& *final(last_history_id) == t.1
        }),
{
    restore_candidates(candidates, results, reduced);
    let mut clusters = build_frame_clusters(candidates, results, now);
    apply_within_flags(&mut clusters);
    proof {
        lemma_frame_clusters_len(
            restore_all(old(candidates)@, results@, reduced),
            results@,
            max_label(results@) as int,
            now,
        );
        lemma_max_label_bound(results@, results@.len() as int, results@.len() as usize);
        assert(views_of(clusters@).len() == clusters@.len());
        assert(clusters@.len() <= results@.len());
    }
    track_clusters(&mut clusters, history, now, last_history_id);
    clusters
}

} // verus!
