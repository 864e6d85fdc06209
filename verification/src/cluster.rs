//! Per-frame clusters and their geometry: bounding boxes, containment and
//! overlap tests, and the mathematical model of a cluster.

use crate::motion::MotionVector;
use vstd::prelude::*;

verus! {

/// Axis-aligned bounding box in grid units. `top` is the least and
/// `bottom` the greatest vertical coordinate of the members; `left` the
/// least and `right` the greatest horizontal one.
#[derive(Clone, Copy, Debug, PartialEq, Eq, Structural)]
pub struct BBox {
    pub top: i16,
    pub right: i16,
    pub bottom: i16,
    pub left: i16,
}

/// The seed box a cluster's bounding box grows from. Its extremes lie
/// beyond any grid coordinate, which the coordinate bound of the refiner
/// guarantees, so the first member always tightens all four sides.
pub open spec fn seed_bbox() -> BBox {
    BBox { top: 1000, right: 0, bottom: 0, left: 1000 }
}

/// `inner` is within `outer`: the four sides of `inner` all lie inside
/// `outer`'s.
pub open spec fn box_within(inner: BBox, outer: BBox) -> bool {
    &&& inner.top >= outer.top
    &&& inner.bottom <= outer.bottom
    &&& inner.left >= outer.left
    &&& inner.right <= outer.right
}

/// Two boxes overlap: neither lies entirely to one side of the other on
/// either axis.
pub open spec fn boxes_overlap(a: BBox, b: BBox) -> bool {
    &&& !(a.right < b.left)
    &&& !(b.right < a.left)
    &&& !(a.bottom < b.top)
    &&& !(b.bottom < a.top)
}

/// A spatial cluster of motion vectors. Before temporal tracking the
/// identity and time fields are unset; in the rolling history they carry
/// the stable identity, birth time, last-active time and age.
#[derive(Clone, Debug)]
pub struct Cluster {
    /// Stable identity; meaningful only for history entries.
    pub id: usize,
    /// The member blocks.
    pub points: Vec<MotionVector>,
    /// Mean direction of the members, as a scaled integer.
    pub dir: u64,
    /// Mean magnitude of the members, as a scaled integer.
    pub mag: u64,
    /// Bounding box covering every member's coordinate.
    pub bbox: BBox,
    /// Whether the cluster lies fully within another cluster of its frame.
    pub within: bool,
    /// Time the cluster was first seen.
    pub birth: u128,
    /// Last-active time minus birth time.
    pub age: u128,
    /// Time the cluster was last seen.
    pub active: u128,
    /// Member count at the last update.
    pub size: usize,
}

/// The mathematical value of a cluster.
pub ghost struct ClusterV {
    pub id: usize,
    pub points: Seq<MotionVector>,
    pub dir: u64,
    pub mag: u64,
    pub bbox: BBox,
    pub within: bool,
    pub birth: u128,
    pub age: u128,
    pub active: u128,
    pub size: usize,
}

impl View for Cluster {
    type V = ClusterV;

    open spec fn view(&self) -> ClusterV {
        ClusterV {
            id: self.id,
            points: self.points@,
            dir: self.dir,
            mag: self.mag,
            bbox: self.bbox,
            within: self.within,
            birth: self.birth,
            age: self.age,
            active: self.active,
            size: self.size,
        }
    }
}

/// The values of a sequence of clusters.
pub open spec fn views_of(s: Seq<Cluster>) -> Seq<ClusterV> {
    s.map_values(|c: Cluster| c@)
}

impl Cluster {
    /// An empty cluster: no members, no identity, the seed bounding box.
    pub fn new() -> (c: Cluster)
        ensures
            c@ == (ClusterV {
                id: 0,
                points: Seq::<MotionVector>::empty(),
                dir: 0,
                mag: 0,
                bbox: seed_bbox(),
                within: false,
                birth: 0,
                age: 0,
                active: 0,
                size: 0,
            }),
    {
        let c = Cluster {
            id: 0,
            points: Vec::new(),
            dir: 0,
            mag: 0,
            bbox: BBox { top: 1000, right: 0, bottom: 0, left: 1000 },
            within: false,
            birth: 0,
            age: 0,
            active: 0,
            size: 0,
        };
        proof {
            assert(c@.points =~= Seq::<MotionVector>::empty());
        }
        c
    }
}

/// Copy a cluster field by field; the member list is copied element by
/// element, so the copy has the same value.
pub fn copy_cluster(c: &Cluster) -> (r: Cluster)
    ensures
        r@ == c@,
{
    Cluster {
        id: c.id,
        points: clone_points(&c.points),
        dir: c.dir,
        mag: c.mag,
        bbox: c.bbox,
        within: c.within,
        birth: c.birth,
        age: c.age,
        active: c.active,
        size: c.size,
    }
}

/// Copy a member list. Members are plain values, so the copy carries the
/// same sequence.
pub fn clone_points(v: &Vec<MotionVector>) -> (r: Vec<MotionVector>)
    ensures
        r@ == v@,
{
    let mut r: Vec<MotionVector> = Vec::new();
    let n = v.len();
    for k in 0..n
        invariant
            n == v@.len(),
            r@ == v@.take(k as int),
    {
        r.push(v[k]);
        proof {
            assert(r@ =~= v@.take(k + 1));
        }
    }
    proof {
        assert(v@.take(n as int) =~= v@);
    }
    r
}

} // verus!
