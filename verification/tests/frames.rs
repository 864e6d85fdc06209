use mvr::cluster::{BBox, Cluster};
use mvr::motion::{collect_candidates, decode_frame, is_candidate, MotionVector};
use mvr::pipeline::process_frame;
use mvr::reduce::reduce_candidates;

fn mv_at(x: i16, y: i16) -> MotionVector {
    let mut mv = MotionVector::new();
    mv.x = x;
    mv.y = y;
    mv
}

#[test]
fn decode_reads_displacements_and_score() {
    // Two by two grid, four bytes per block. The third block's score
    // bytes are 0x01, 0x02: little-endian, that is 513, not 258.
    let buffer: Vec<u8> = vec![
        5, 0xFB, 0x00, 0x00, // block 0: dx 5, dy -5, sad 0
        0, 1, 0xFF, 0xFF, // block 1: sad 65535
        2, 3, 0x01, 0x02, // block 2: sad 513
        0, 0, 0x10, 0x00, // block 3: sad 16
    ];
    let vectors = decode_frame(&buffer, 2, 2);
    assert_eq!(vectors.len(), 4);
    assert_eq!(vectors[0].dx, 5);
    assert_eq!(vectors[0].dy, -5);
    assert_eq!(vectors[0].sad, 0);
    assert_eq!((vectors[0].x, vectors[0].y), (0, 0));
    assert_eq!(vectors[1].sad, 65535);
    assert_eq!((vectors[1].x, vectors[1].y), (1, 0));
    assert_eq!(vectors[2].sad, 513);
    assert_eq!((vectors[2].x, vectors[2].y), (0, 1));
    assert_eq!(vectors[3].sad, 16);
    assert_eq!((vectors[3].x, vectors[3].y), (1, 1));
}

#[test]
fn candidate_filter_checks_magnitude_and_score() {
    let mut strong = MotionVector::new();
    strong.dx = 2;
    strong.dy = 0;
    strong.sad = 300;
    assert!(is_candidate(&strong, 2, 250));
    let mut weak = MotionVector::new();
    weak.dx = 1;
    weak.dy = 1;
    weak.sad = 300;
    assert!(!is_candidate(&weak, 2, 250));
    let mut quiet = MotionVector::new();
    quiet.dx = 5;
    quiet.dy = 5;
    quiet.sad = 250;
    // The score must strictly exceed the threshold.
    assert!(!is_candidate(&quiet, 2, 250));
}

#[test]
fn collect_candidates_sums_magnitudes() {
    let mut a = MotionVector::new();
    a.dx = 3;
    a.sad = 300;
    a.mag = 3000;
    let mut b = MotionVector::new();
    b.dx = 0;
    b.dy = 0;
    b.sad = 300;
    b.mag = 0;
    let mut c = MotionVector::new();
    c.dx = -4;
    c.sad = 251;
    c.mag = 4000;
    let (cands, total) = collect_candidates(&vec![a, b, c], 2, 250);
    assert_eq!(cands.len(), 2);
    assert_eq!(cands[0].dx, 3);
    assert_eq!(cands[1].dx, -4);
    assert_eq!(total, 7000);
}

#[test]
fn small_frames_are_not_reduced() {
    let cands: Vec<MotionVector> = (0..125).map(|i| mv_at(i % 50, i / 50)).collect();
    assert!(reduce_candidates(&cands).is_none());
}

#[test]
fn reduction_halves_and_saves_coordinates() {
    let cands: Vec<MotionVector> = (0..250).map(|i| mv_at(i % 50, i / 50)).collect();
    let (reduced, factor) = reduce_candidates(&cands).unwrap();
    assert_eq!(factor, 2);
    assert_eq!(reduced.len(), 125);
    for (j, kept) in reduced.iter().enumerate() {
        let source = &cands[j * factor];
        assert_eq!(kept.org_x, source.x);
        assert_eq!(kept.org_y, source.y);
        assert_eq!(kept.x, source.x / 2);
        assert_eq!(kept.y, source.y / 2);
        // Restoring from the saved coordinate reproduces the original.
        assert_eq!((kept.org_x, kept.org_y), (source.x, source.y));
    }
}

#[test]
fn frame_pipeline_tracks_grid_cluster() {
    let mut grid: Vec<MotionVector> = Vec::new();
    for y in 0..3 {
        for x in 0..3 {
            let mut mv = mv_at(x, y);
            mv.dir = 90_000;
            mv.mag = 2_000;
            grid.push(mv);
        }
    }
    let mut history: Vec<Cluster> = Vec::new();
    let mut last_id = 0usize;
    let (clusters, cands) = process_frame(
        grid.clone(),
        2,
        4,
        2000,
        &mut history,
        1000,
        &mut last_id,
    );
    assert_eq!(cands.len(), 9);
    assert_eq!(clusters.len(), 1);
    assert_eq!(clusters[0].bbox, BBox { top: 0, right: 2, bottom: 2, left: 0 });
    assert_eq!(clusters[0].dir, 90_000);
    assert_eq!(clusters[0].mag, 2_000);
    assert_eq!(history.len(), 1);
    assert_eq!(history[0].id, 1);
    // The same frame again, 500 later: same identity, age advances.
    let (_clusters, _cands) = process_frame(
        grid,
        2,
        4,
        2000,
        &mut history,
        1500,
        &mut last_id,
    );
    assert_eq!(history.len(), 1);
    assert_eq!(history[0].id, 1);
    assert_eq!(history[0].age, 500);
    assert_eq!(last_id, 1);
    // Empty frames follow; the entry expires once inactivity passes the
    // threshold.
    let empty: Vec<MotionVector> = Vec::new();
    let (none_clusters, _) = process_frame(
        empty.clone(),
        2,
        4,
        2000,
        &mut history,
        3500,
        &mut last_id,
    );
    assert!(none_clusters.is_empty());
    assert_eq!(history.len(), 1);
    let (_, _) = process_frame(empty, 2, 4, 2000, &mut history, 3501, &mut last_id);
    assert!(history.is_empty());
}

#[test]
fn pipeline_reduces_dense_frames() {
    // 250 candidates in a tight block: reduction kicks in, clustering
    // still runs, and reported coordinates are the true ones.
    let mut cands: Vec<MotionVector> = Vec::new();
    for i in 0..250i16 {
        cands.push(mv_at(i % 20, i / 20));
    }
    let mut history: Vec<Cluster> = Vec::new();
    let mut last_id = 0usize;
    let (clusters, reported) = process_frame(
        cands,
        2,
        4,
        2000,
        &mut history,
        100,
        &mut last_id,
    );
    assert_eq!(reported.len(), 125);
    assert!(!clusters.is_empty());
    for cl in &clusters {
        for p in &cl.points {
            // Members carry restored, full-resolution coordinates.
            assert!(p.x < 20 && p.y < 13);
        }
    }
}
