//! The decoded unit of input: one motion-estimation block, its decoding
//! from raw frame bytes, and the activity filter that selects clustering
//! candidates.

use byteorder::ByteOrder;
use vstd::prelude::*;
use vstd::slice::slice_subrange;

verus! {

/// One motion-estimation block: displacement, activity score, grid
/// coordinate, derived direction/magnitude (fixed-point integers supplied
/// by the caller), and the saved original coordinate used to undo
/// resolution reduction.
#[derive(Clone, Copy, Debug, PartialEq, Eq, Structural)]
pub struct MotionVector {
    /// Signed horizontal displacement.
    pub dx: i8,
    /// Signed vertical displacement.
    pub dy: i8,
    /// Activity (signed-error) score of the block.
    pub sad: u16,
    /// Horizontal grid coordinate, in block units.
    pub x: i16,
    /// Vertical grid coordinate, in block units.
    pub y: i16,
    /// Direction derived from the displacement, as a scaled integer.
    pub dir: u32,
    /// Magnitude derived from the displacement, as a scaled integer.
    pub mag: u32,
    /// Original horizontal coordinate, saved by resolution reduction.
    pub org_x: i16,
    /// Original vertical coordinate, saved by resolution reduction.
    pub org_y: i16,
}

impl MotionVector {
    /// A blank block: no displacement, coordinate not yet assigned.
    pub fn new() -> (mv: MotionVector)
        ensures
            mv == (MotionVector {
                dx: 0,
                dy: 0,
                sad: 0,
                x: -1i16,
                y: -1i16,
                dir: 0,
                mag: 0,
                org_x: 0,
                org_y: 0,
            }),
    {
        MotionVector {
            dx: 0,
            dy: 0,
            sad: 0,
            x: -1,
            y: -1,
            dir: 0,
            mag: 0,
            org_x: 0,
            org_y: 0,
        }
    }
}

/// The block that a frame's bytes describe at index `k`: byte 0 is the
/// signed horizontal displacement, byte 1 the signed vertical one, bytes
/// 2 and 3 the activity score as a little-endian unsigned 16-bit integer.
/// The coordinate comes from the fixed grid position of the block.
pub open spec fn decoded_block(bytes: Seq<u8>, width: int, k: int) -> MotionVector {
    MotionVector {
        dx: bytes[4 * k] as i8,
        dy: bytes[4 * k + 1] as i8,
        sad: (bytes[4 * k + 2] + 256 * bytes[4 * k + 3]) as u16,
        x: (k % width) as i16,
        y: (k / width) as i16,
        dir: 0,
        mag: 0,
        org_x: 0,
        org_y: 0,
    }
}

/// Relies on byteorder's `LittleEndian::read_u16`: it returns the first
/// two bytes of the slice as an unsigned little-endian 16-bit integer and
/// panics only when the slice holds fewer than two bytes.
#[verifier::external_body]
fn read_u16_le(bytes: &[u8]) -> (r: u16)
    requires
        bytes@.len() >= 2,
    ensures
        r == bytes@[0] + 256 * bytes@[1],
{
    byteorder::LittleEndian::read_u16(bytes)
}

/// Decode one frame of raw encoder bytes, four bytes per block, into the
/// fixed `width` by `height` grid of blocks. Direction and magnitude are
/// left at zero: they are derived from the displacement by the caller.
pub fn decode_frame(buffer: &Vec<u8>, width: usize, height: usize) -> (vectors: Vec<
    MotionVector,
>)
    requires
        1 <= width <= 0x7fff,
        1 <= height <= 0x7fff,
        buffer@.len() == width * height * 4,
    ensures
        vectors@.len() == width * height,
        forall|k: int|
            0 <= k < vectors@.len() ==> vectors@[k] == decoded_block(
                buffer@,
                width as int,
                k,
            ),
{
    proof {
        assert(width * height <= 0x3fff_0001) by (nonlinear_arith)
            requires
                1 <= width <= 0x7fff,
                1 <= height <= 0x7fff,
        ;
    }
    let count: usize = width * height;
    let mut vectors: Vec<MotionVector> = Vec::new();
    for k in 0..count
        invariant
            vectors@.len() == k,
            1 <= width <= 0x7fff,
            1 <= height <= 0x7fff,
            count == width * height,
            count <= 0x3fff_0001,
            buffer@.len() == count * 4,
            buffer@.len() == width * height * 4,
            forall|j: int|
                0 <= j < k ==> vectors@[j] == decoded_block(buffer@, width as int, j),
    {
        let off: usize = 4 * k;
        let sad_bytes: &[u8] = slice_subrange(buffer.as_slice(), off + 2, off + 4);
        let x_raw: usize = k % width;
        let y_raw: usize = k / width;
        proof {
            assert(y_raw < height) by (nonlinear_arith)
                requires
                    k < width * height,
                    width >= 1,
                    y_raw == k as int / width as int,
            ;
        }
        let mv = MotionVector {
            dx: #[verifier::truncate] (buffer[off] as i8),
            dy: #[verifier::truncate] (buffer[off + 1] as i8),
            sad: read_u16_le(sad_bytes),
            x: x_raw as i16,
            y: y_raw as i16,
            dir: 0,
            mag: 0,
            org_x: 0,
            org_y: 0,
        };
        vectors.push(mv);
    }
    vectors
}

/// A block qualifies as a clustering candidate when its displacement
/// magnitude reaches `min_magnitude` (compared exactly on squares, so that
/// no square root is needed) and its activity score exceeds
/// `sad_threshold`.
pub open spec fn is_candidate_spec(
    mv: MotionVector,
    min_magnitude: u16,
    sad_threshold: u16,
) -> bool {
    mv.dx * mv.dx + mv.dy * mv.dy >= min_magnitude * min_magnitude && mv.sad > sad_threshold
}

/// The candidate filter at the boundary between decode and clustering.
pub fn is_candidate(mv: &MotionVector, min_magnitude: u16, sad_threshold: u16) -> (r: bool)
    ensures
        r == is_candidate_spec(*mv, min_magnitude, sad_threshold),
{
    let dx: i64 = mv.dx as i64;
    let dy: i64 = mv.dy as i64;
    let mm: i64 = min_magnitude as i64;
    proof {
        assert(0 <= dx * dx <= 16384) by (nonlinear_arith)
            requires
                -128 <= dx <= 127,
        ;
        assert(0 <= dy * dy <= 16384) by (nonlinear_arith)
            requires
                -128 <= dy <= 127,
        ;
        assert(0 <= mm * mm <= 0xffff * 0xffff) by (nonlinear_arith)
            requires
                0 <= mm <= 0xffff,
        ;
    }
    dx * dx + dy * dy >= mm * mm && mv.sad > sad_threshold
}

/// The sum of the magnitudes of a sequence of blocks.
pub open spec fn mag_total(s: Seq<MotionVector>) -> int
    decreases s.len(),
{
    if s.len() == 0 {
        0
    } else {
        mag_total(s.drop_last()) + s.last().mag
    }
}

/// Select the clustering candidates of a decoded frame, in input order,
/// and report the summed magnitude of the selected blocks.
pub fn collect_candidates(
    vectors: &Vec<MotionVector>,
    min_magnitude: u16,
    sad_threshold: u16,
) -> (r: (Vec<MotionVector>, u64))
    requires
        vectors@.len() < 0x1_0000_0000,
    ensures
        r.0@ == vectors@.filter(
            |mv: MotionVector| is_candidate_spec(mv, min_magnitude, sad_threshold),
        ),
        r.1 == mag_total(r.0@),
{
    let ghost pred = |mv: MotionVector| is_candidate_spec(mv, min_magnitude, sad_threshold);
    let mut cands: Vec<MotionVector> = Vec::new();
    let mut total: u64 = 0;
    let n = vectors.len();
    for k in 0..n
        invariant
            n == vectors@.len(),
            n < 0x1_0000_0000,
            pred == (|mv: MotionVector| is_candidate_spec(mv, min_magnitude, sad_threshold)),
            cands@ == vectors@.take(k as int).filter(pred),
            cands@.len() <= k,
            total == mag_total(cands@),
            total <= k * 0xffff_ffffu64,
    {
        let mv = vectors[k];
        let ghost cands0 = cands@;
        let picked = is_candidate(&mv, min_magnitude, sad_threshold);
        if picked {
            cands.push(mv);
            total = total + mv.mag as u64;
        }
        proof {
            let t1 = vectors@.take(k + 1);
            assert(t1 =~= vectors@.take(k as int).push(mv));
            vectors@.take(k as int).lemma_filter_push(mv, pred);
            if picked {
                assert(cands@.drop_last() =~= cands0);
                assert(mag_total(cands@) == mag_total(cands0) + mv.mag);
            }
            assert(cands@ == t1.filter(pred));
        }
    }
    proof {
        assert(vectors@.take(n as int) =~= vectors@);
    }
    (cands, total)
}

} // verus!
