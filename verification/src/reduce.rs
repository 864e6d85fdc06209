//! Adaptive resolution reduction: when a frame has too many candidates,
//! keep every `factor`-th one and divide its working coordinate by the
//! factor, saving the true coordinate so the refiner can restore it.
//! Clustering cost is quadratic in the candidate count, so this bounds
//! the per-frame cost at the price of coarser resolution for that frame.

use crate::motion::MotionVector;
use vstd::prelude::*;

verus! {

/// The candidate count the reducer aims for.
pub const TARGET_CANDIDATES: usize = 100;

/// Reduction triggers when the candidate count exceeds five quarters of
/// the target.
pub open spec fn needs_reduction(len: int) -> bool {
    len * 4 > TARGET_CANDIDATES * 5
}

/// One sample as the reducer keeps it: the true coordinate moves to the
/// original-coordinate field and the working coordinate is divided by
/// the factor.
pub open spec fn reduced_sample(mv: MotionVector, factor: int) -> MotionVector {
    MotionVector {
        dx: mv.dx,
        dy: mv.dy,
        sad: mv.sad,
        x: (mv.x as int / factor) as i16,
        y: (mv.y as int / factor) as i16,
        dir: mv.dir,
        mag: mv.mag,
        org_x: mv.x,
        org_y: mv.y,
    }
}

/// The reduced sequence: every `factor`-th sample, in input order.
pub open spec fn reduce_spec(cands: Seq<MotionVector>, factor: int) -> Seq<MotionVector> {
    Seq::new(
        (((cands.len() + factor - 1) / factor)) as nat,
        |j: int| reduced_sample(cands[j * factor], factor),
    )
}

/// A sample with its working coordinate restored from the saved one.
pub open spec fn restored_sample(mv: MotionVector) -> MotionVector {
    MotionVector {
        dx: mv.dx,
        dy: mv.dy,
        sad: mv.sad,
        x: mv.org_x,
        y: mv.org_y,
        dir: mv.dir,
        mag: mv.mag,
        org_x: mv.org_x,
        org_y: mv.org_y,
    }
}

/// Subsample the candidates when there are too many of them.
///
/// Over five quarters of the target: every `factor`-th candidate is kept
/// (with `factor` the candidate count divided by the target), its true
/// coordinate saved and its working coordinate scaled down. Otherwise no
/// reduction happens.
pub fn reduce_candidates(candidates: &Vec<MotionVector>) -> (r: Option<
    (Vec<MotionVector>, usize),
>)
    requires
        candidates@.len() < 0xffff,
        forall|t: int|
            0 <= t < candidates@.len() ==> (#[trigger] candidates@[t]).x >= 0
                && candidates@[t].y >= 0,
    ensures
        match r {
            Some(p) => {
                &&& needs_reduction(candidates@.len() as int)
                &&& p.1 == candidates@.len() as int / TARGET_CANDIDATES as int
                &&& p.1 >= 1
                &&& p.0@ == reduce_spec(candidates@, p.1 as int)
                &&& p.0@.len() <= candidates@.len()
            },
            None => !needs_reduction(candidates@.len() as int),
        },
{
    let n = candidates.len();
    if n > TARGET_CANDIDATES + TARGET_CANDIDATES / 4 {
        proof {
            assert(n * 4 > TARGET_CANDIDATES * 5);
        }
        let factor: usize = n / TARGET_CANDIDATES;
        proof {
            assert(factor >= 1);
            assert(factor <= n);
        }
        let mut reduced: Vec<MotionVector> = Vec::new();
        let mut i: usize = 0;
        proof {
            assert(0int * factor as int == 0) by (nonlinear_arith);
        }
        while i < n
            invariant
                n == candidates@.len(),
                n < 0xffff,
                1 <= factor <= n,
                forall|t: int|
                    0 <= t < candidates@.len() ==> (#[trigger] candidates@[t]).x >= 0
                        && candidates@[t].y >= 0,
                i == reduced@.len() * factor,
                i - factor < n,
                reduced@.len() <= n,
                forall|t: int|
                    0 <= t < reduced@.len() ==> (#[trigger] reduced@[t]) == reduced_sample(
                        candidates@[t * factor],
                        factor as int,
                    ),
            decreases n + factor - i,
        {
            let mv = candidates[i];
            let ghost kept = reduced@.len() as int;
            proof {
                assert(0 <= mv.x as int / (factor as int) <= mv.x as int) by (nonlinear_arith)
                    requires
                        mv.x >= 0,
                        factor >= 1,
                ;
                assert(0 <= mv.y as int / (factor as int) <= mv.y as int) by (nonlinear_arith)
                    requires
                        mv.y >= 0,
                        factor >= 1,
                ;
            }
            let rx: i16 = ((mv.x as u32) / (factor as u32)) as i16;
            let ry: i16 = ((mv.y as u32) / (factor as u32)) as i16;
            let out = MotionVector {
                dx: mv.dx,
                dy: mv.dy,
                sad: mv.sad,
                x: rx,
                y: ry,
                dir: mv.dir,
                mag: mv.mag,
                org_x: mv.x,
                org_y: mv.y,
            };
            proof {
                assert(kept * factor == i as int);
                assert(out == reduced_sample(candidates@[kept * factor], factor as int));
                assert(kept < n) by (nonlinear_arith)
                    requires
                        kept * factor as int == i as int,
                        i < n,
                        factor >= 1,
                        kept >= 0,
                ;
            }
            reduced.push(out);
            i = i + factor;
            proof {
                assert((kept + 1) * factor as int == kept * factor as int + factor as int)
                    by (nonlinear_arith);
            }
        }
        proof {
            let kept = reduced@.len() as int;
            let f = factor as int;
            assert(kept * f >= n);
            assert(kept >= 1) by (nonlinear_arith)
                requires
                    kept * f >= n as int,
                    n >= 1,
                    f >= 1,
            ;
            assert((kept - 1) * f == kept * f - f) by (nonlinear_arith);
            assert((kept - 1) * f < n);
            assert(kept == (n + f - 1) / f) by (nonlinear_arith)
                requires
                    f >= 1,
                    kept * f >= n as int,
                    (kept - 1) * f < n as int,
            ;
            assert(reduced@ =~= reduce_spec(candidates@, factor as int));
        }
        Some((reduced, factor))
    } else {
        proof {
            assert(!(n * 4 > TARGET_CANDIDATES * 5));
        }
        None
    }
}

} // verus!
