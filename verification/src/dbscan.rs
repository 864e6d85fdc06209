//! Density-reachability clustering of motion vectors.
//!
//! Labels follow the convention: 0 is noise, `k >= 1` is cluster `k`.
//! The neighbour test deliberately combines an axis-aligned box pre-check
//! (epsilon as a box half-width) with an exact Manhattan-distance check;
//! the approximation is an intentional performance choice that tuned
//! epsilon values assume, so both conditions are kept as they are.

use crate::motion::MotionVector;
use vstd::prelude::*;

verus! {

/// Label of a sample the clusterer has not visited yet.
pub const UNVISITED: usize = 0xffff;

/// Absolute value of a coordinate difference.
pub open spec fn dist_abs(v: int) -> int {
    if v < 0 {
        -v
    } else {
        v
    }
}

/// The neighbour test between a centre sample and another sample: the
/// horizontal distance must lie strictly under `eps` (the cheap box
/// pre-filter), and the Manhattan distance must not exceed `eps`.
pub open spec fn near(center: MotionVector, other: MotionVector, eps: int) -> bool {
    &&& dist_abs(other.x - center.x) < eps
    &&& dist_abs(other.x - center.x) + dist_abs(other.y - center.y) <= eps
}

/// The indices below `k`, other than `p` itself, whose sample is near
/// sample `p`, in ascending order.
pub open spec fn nbrs_upto(data: Seq<MotionVector>, p: int, eps: int, k: int) -> Seq<usize>
    decreases k,
{
    if k <= 0 {
        Seq::<usize>::empty()
    } else if k - 1 != p && near(data[p], data[k - 1], eps) {
        nbrs_upto(data, p, eps, k - 1).push((k - 1) as usize)
    } else {
        nbrs_upto(data, p, eps, k - 1)
    }
}

/// The neighbour set of sample `p`, as an ordered sequence of indices.
pub open spec fn nbrs(data: Seq<MotionVector>, p: int, eps: int) -> Seq<usize> {
    nbrs_upto(data, p, eps, data.len() as int)
}

/// A core sample: its neighbour count reaches `min_points`.
pub open spec fn is_core(data: Seq<MotionVector>, p: int, eps: int, min_points: usize) -> bool {
    nbrs(data, p, eps).len() >= min_points
}

/// How many labels still carry the unvisited sentinel.
pub open spec fn unvisited_count(labels: Seq<usize>) -> nat
    decreases labels.len(),
{
    if labels.len() == 0 {
        0
    } else {
        unvisited_count(labels.drop_last()) + (if labels.last() == UNVISITED {
            1nat
        } else {
            0nat
        })
    }
}

pub proof fn lemma_unvisited_count_update(labels: Seq<usize>, j: int, v: usize)
    requires
        0 <= j < labels.len(),
        labels[j] == UNVISITED,
        v != UNVISITED,
    ensures
        unvisited_count(labels.update(j, v)) + 1 == unvisited_count(labels),
    decreases labels.len(),
{
    let u = labels.update(j, v);
    if j == labels.len() - 1 {
        assert(u.drop_last() =~= labels.drop_last());
    } else {
        assert(u.drop_last() =~= labels.drop_last().update(j, v));
        lemma_unvisited_count_update(labels.drop_last(), j, v);
    }
}

pub proof fn lemma_unvisited_count_update_stays(labels: Seq<usize>, j: int, v: usize)
    requires
        0 <= j < labels.len(),
        labels[j] != UNVISITED,
        v != UNVISITED,
    ensures
        unvisited_count(labels.update(j, v)) == unvisited_count(labels),
    decreases labels.len(),
{
    let u = labels.update(j, v);
    if j == labels.len() - 1 {
        assert(u.drop_last() =~= labels.drop_last());
    } else {
        assert(u.drop_last() =~= labels.drop_last().update(j, v));
        lemma_unvisited_count_update_stays(labels.drop_last(), j, v);
    }
}

/// The labels after working off the expansion worklist `work` from
/// position `pos` for cluster `cid`. Processing an entry `j`: a sample
/// not yet visited joins the cluster, and if it is core its neighbours
/// join the worklist; a sample visited as noise is upgraded to the
/// cluster; any other sample keeps its label.
pub open spec fn expand_from(
    data: Seq<MotionVector>,
    eps: int,
    min_points: usize,
    labels: Seq<usize>,
    work: Seq<usize>,
    pos: int,
    cid: usize,
) -> Seq<usize>
    decreases unvisited_count(labels), work.len() - pos,
{
    if pos < 0 || pos >= work.len() || cid == UNVISITED {
        labels
    } else {
        let j = work[pos] as int;
        if j >= labels.len() {
            expand_from(data, eps, min_points, labels, work, pos + 1, cid)
        } else if labels[j] == UNVISITED && nbrs(data, j, eps).len() >= min_points {
            proof {
                lemma_unvisited_count_update(labels, j, cid);
            }
            expand_from(
                data,
                eps,
                min_points,
                labels.update(j, cid),
                work + nbrs(data, j, eps),
                pos + 1,
                cid,
            )
        } else if labels[j] == UNVISITED || labels[j] == 0 {
            proof {
                if labels[j] == UNVISITED {
                    lemma_unvisited_count_update(labels, j, cid);
                } else {
                    lemma_unvisited_count_update_stays(labels, j, cid);
                }
            }
            expand_from(data, eps, min_points, labels.update(j, cid), work, pos + 1, cid)
        } else {
            expand_from(data, eps, min_points, labels, work, pos + 1, cid)
        }
    }
}

/// The labels after the top-level scan from sample `i` on: each sample
/// not yet visited is marked visited; a core sample seeds the next
/// cluster and is expanded, any other stays noise.
pub open spec fn scan_from(
    data: Seq<MotionVector>,
    eps: int,
    min_points: usize,
    labels: Seq<usize>,
    i: int,
    next_ix: usize,
) -> Seq<usize>
    decreases data.len() - i,
{
    if i < 0 || i >= data.len() || labels.len() != data.len() {
        labels
    } else if labels[i] != UNVISITED {
        scan_from(data, eps, min_points, labels, i + 1, next_ix)
    } else if nbrs(data, i, eps).len() >= min_points && next_ix < usize::MAX {
        let cid = (next_ix + 1) as usize;
        let labels1 = expand_from(data, eps, min_points, labels.update(i, cid), nbrs(data, i, eps), 0, cid);
        scan_from(data, eps, min_points, labels1, i + 1, cid)
    } else {
        scan_from(data, eps, min_points, labels.update(i, 0), i + 1, next_ix)
    }
}

/// The label sequence of the whole clustering run: a function of the
/// samples and the two parameters alone, so equal inputs always yield
/// equal labels.
pub open spec fn dbscan_spec(data: Seq<MotionVector>, eps: int, min_points: usize) -> Seq<
    usize,
> {
    scan_from(data, eps, min_points, Seq::new(data.len(), |i: int| UNVISITED), 0, 0)
}

proof fn lemma_nbrs_upto_bounds(data: Seq<MotionVector>, p: int, eps: int, k: int)
    ensures
        forall|t: int|
            0 <= t < nbrs_upto(data, p, eps, k).len() ==> (#[trigger] nbrs_upto(
                data,
                p,
                eps,
                k,
            )[t]) < k,
    decreases k,
{
    if k > 0 {
        lemma_nbrs_upto_bounds(data, p, eps, k - 1);
        let prev = nbrs_upto(data, p, eps, k - 1);
        let cur = nbrs_upto(data, p, eps, k);
        assert forall|t: int| 0 <= t < cur.len() implies cur[t] < k by {
            if t < prev.len() {
                assert(cur[t] == prev[t]);
            }
        }
    }
}

/// The density clusterer and its two parameters.
pub struct DbScan {
    /// Neighbour-distance threshold, in grid units.
    pub epsilon: i16,
    /// Least neighbour count that seeds or extends a cluster.
    pub min_points: usize,
}

impl DbScan {
    /// Manhattan distance between two samples' coordinates.
    fn manhattan_distance(&self, point1: &MotionVector, point2: &MotionVector) -> (r: i32)
        ensures
            r == dist_abs(point2.x - point1.x) + dist_abs(point2.y - point1.y),
    {
        let dx = point2.x as i32 - point1.x as i32;
        let dy = point2.y as i32 - point1.y as i32;
        let adx = if dx < 0 {
            -dx
        } else {
            dx
        };
        let ady = if dy < 0 {
            -dy
        } else {
            dy
        };
        adx + ady
    }

    /// All other samples near the sample at `point_ix`.
    fn get_neighbours(&self, data: &Vec<MotionVector>, point_ix: usize) -> (nb: Vec<usize>)
        requires
            point_ix < data@.len(),
        ensures
            nb@ == nbrs(data@, point_ix as int, self.epsilon as int),
    {
        let mut nb: Vec<usize> = Vec::new();
        let n = data.len();
        for i in 0..n
            invariant
                n == data@.len(),
                point_ix < n,
                nb@ == nbrs_upto(data@, point_ix as int, self.epsilon as int, i as int),
        {
            if i != point_ix {
                let v = &data[i];
                let point = &data[point_ix];
                let dx = v.x as i32 - point.x as i32;
                let adx = if dx < 0 {
                    -dx
                } else {
                    dx
                };
                if adx < self.epsilon as i32 && self.manhattan_distance(point, v)
                    <= self.epsilon as i32 {
                    nb.push(i);
                }
            }
            proof {
                assert(nb@ == nbrs_upto(data@, point_ix as int, self.epsilon as int, i + 1));
            }
        }
        nb
    }

    /// Work off the expansion worklist of cluster `cluster_ix`, seeded
    /// with the neighbours of the sample at `point_ix`.
    fn expand(
        &self,
        data: &Vec<MotionVector>,
        results: &mut Vec<usize>,
        point_ix: usize,
        neighbours: Vec<usize>,
        cluster_ix: usize,
    )
        requires
            old(results)@.len() == data@.len(),
            point_ix < data@.len(),
            1 <= cluster_ix < UNVISITED,
            forall|t: int|
                0 <= t < neighbours@.len() ==> (#[trigger] neighbours@[t]) < data@.len(),
        ensures
            final(results)@ == expand_from(
                data@,
                self.epsilon as int,
                self.min_points,
                old(results)@.update(point_ix as int, cluster_ix),
                neighbours@,
                0,
                cluster_ix,
            ),
            final(results)@.len() == old(results)@.len(),
            forall|t: int|
                0 <= t < final(results)@.len() ==> final(results)@[t] == old(results)@.update(
                    point_ix as int,
                    cluster_ix,
                )[t] || final(results)@[t] == cluster_ix,
    {
        results[point_ix] = cluster_ix;
        let ghost init_labels = results@;
        let ghost init_work = neighbours@;
        let mut work = neighbours;
        let mut pos: usize = 0;
        while pos < work.len()
            invariant
                results@.len() == data@.len(),
                init_labels.len() == data@.len(),
                pos <= work@.len(),
                1 <= cluster_ix < UNVISITED,
                forall|t: int| 0 <= t < work@.len() ==> (#[trigger] work@[t]) < data@.len(),
                expand_from(
                    data@,
                    self.epsilon as int,
                    self.min_points,
                    results@,
                    work@,
                    pos as int,
                    cluster_ix,
                ) == expand_from(
                    data@,
                    self.epsilon as int,
                    self.min_points,
                    init_labels,
                    init_work,
                    0,
                    cluster_ix,
                ),
                forall|t: int|
                    0 <= t < results@.len() ==> results@[t] == init_labels[t] || results@[t]
                        == cluster_ix,
            decreases unvisited_count(results@), work@.len() - pos,
        {
            let ghost eps = self.epsilon as int;
            let ghost mp = self.min_points;
            let ghost labels_pre = results@;
            let ghost work_pre = work@;
            let j = work[pos];
            if results[j] == UNVISITED {
                results[j] = 0;
                let nb2 = self.get_neighbours(data, j);
                if nb2.len() >= self.min_points {
                    results[j] = cluster_ix;
                    let mut tail = nb2;
                    work.append(&mut tail);
                    proof {
                        lemma_nbrs_upto_bounds(data@, j as int, eps, data@.len() as int);
                        assert(results@ =~= labels_pre.update(j as int, cluster_ix));
                        lemma_unvisited_count_update(labels_pre, j as int, cluster_ix);
                    }
                } else {
                    proof {
                        assert(results@ =~= labels_pre.update(j as int, 0));
                    }
                }
            }
            if results[j] < 1 {
                results[j] = cluster_ix;
            }
            pos = pos + 1;
            proof {
                let jj = j as int;
                if labels_pre[jj] == UNVISITED && nbrs(data@, jj, eps).len() >= mp {
                    assert(results@ =~= labels_pre.update(jj, cluster_ix));
                    assert(work@ == work_pre + nbrs(data@, jj, eps));
                } else if labels_pre[jj] == UNVISITED || labels_pre[jj] == 0 {
                    assert(results@ =~= labels_pre.update(jj, cluster_ix));
                    if labels_pre[jj] == UNVISITED {
                        lemma_unvisited_count_update(labels_pre, jj, cluster_ix);
                    } else {
                        lemma_unvisited_count_update_stays(labels_pre, jj, cluster_ix);
                    }
                } else {
                    assert(results@ == labels_pre);
                }
                assert(expand_from(data@, eps, mp, labels_pre, work_pre, pos - 1, cluster_ix)
                    == expand_from(data@, eps, mp, results@, work@, pos as int, cluster_ix));
            }
        }
    }

    /// Run the clusterer over `data` and hand back one label per sample.
    ///
    /// The result is pinned to `dbscan_spec`, a function of the samples
    /// and parameters alone; labels stay at most the sample count, and a
    /// sample labelled noise is never a core sample.
    pub fn run(&self, data: &Vec<MotionVector>) -> (results: Vec<usize>)
        requires
            data@.len() < UNVISITED,
        ensures
            results@ == dbscan_spec(data@, self.epsilon as int, self.min_points),
            results@.len() == data@.len(),
            forall|t: int| 0 <= t < results@.len() ==> (#[trigger] results@[t]) <= data@.len(),
            forall|t: int|
                0 <= t < results@.len() ==> ((#[trigger] results@[t]) == 0 ==> !is_core(
                    data@,
                    t,
                    self.epsilon as int,
                    self.min_points,
                )),
    {
        let n = data.len();
        let mut results: Vec<usize> = Vec::new();
        for k in 0..n
            invariant
                results@.len() == k,
                forall|t: int| 0 <= t < k ==> (#[trigger] results@[t]) == UNVISITED,
        {
            results.push(UNVISITED);
        }
        proof {
            assert(results@ =~= Seq::new(data@.len(), |i: int| UNVISITED));
        }
        let mut next_ix: usize = 0;
        for i in 0..n
            invariant
                n == data@.len(),
                n < UNVISITED,
                results@.len() == n,
                next_ix <= i,
                scan_from(
                    data@,
                    self.epsilon as int,
                    self.min_points,
                    results@,
                    i as int,
                    next_ix,
                ) == dbscan_spec(data@, self.epsilon as int, self.min_points),
                forall|t: int|
                    0 <= t < n ==> (#[trigger] results@[t]) == UNVISITED || results@[t]
                        <= next_ix,
                forall|t: int| 0 <= t < i ==> (#[trigger] results@[t]) != UNVISITED,
                forall|t: int|
                    0 <= t < n ==> ((#[trigger] results@[t]) == 0 ==> !is_core(
                        data@,
                        t,
                        self.epsilon as int,
                        self.min_points,
                    )),
        {
            let ghost eps = self.epsilon as int;
            let ghost mp = self.min_points;
            let ghost labels_pre = results@;
            let ghost next_pre = next_ix;
            if results[i] == UNVISITED {
                results[i] = 0;
                let nb = self.get_neighbours(data, i);
                if nb.len() >= self.min_points {
                    next_ix = next_ix + 1;
                    let ghost labels_mid = results@;
                    proof {
                        lemma_nbrs_upto_bounds(data@, i as int, eps, data@.len() as int);
                    }
                    self.expand(data, &mut results, i, nb, next_ix);
                    proof {
                        assert(labels_mid.update(i as int, next_ix) =~= labels_pre.update(
                            i as int,
                            next_ix,
                        ));
                        assert(results@ == expand_from(
                            data@,
                            eps,
                            mp,
                            labels_pre.update(i as int, next_ix),
                            nbrs(data@, i as int, eps),
                            0,
                            next_ix,
                        ));
                    }
                } else {
                    proof {
                        assert(results@ =~= labels_pre.update(i as int, 0));
                    }
                }
            }
            proof {
                assert(scan_from(data@, eps, mp, labels_pre, i as int, next_pre) == scan_from(
                    data@,
                    eps,
                    mp,
                    results@,
                    i + 1,
                    next_ix,
                ));
            }
        }
        proof {
            assert(scan_from(
                data@,
                self.epsilon as int,
                self.min_points,
                results@,
                n as int,
                next_ix,
            ) == results@);
        }
        results
    }
}

} // verus!
