use mvr::cluster::{BBox, Cluster};
use mvr::dbscan::DbScan;
use mvr::motion::MotionVector;
use mvr::refine::{is_within, refine_clusters};

fn mv_at(x: i16, y: i16) -> MotionVector {
    let mut mv = MotionVector::new();
    mv.x = x;
    mv.y = y;
    mv
}

fn grid_3x3() -> Vec<MotionVector> {
    let mut v = Vec::new();
    for y in 0..3 {
        for x in 0..3 {
            v.push(mv_at(x, y));
        }
    }
    v
}

#[test]
fn grid_forms_one_cluster() {
    let data = grid_3x3();
    let scanner = DbScan { epsilon: 2, min_points: 4 };
    let results = scanner.run(&data);
    assert_eq!(results.len(), 9);
    for &label in &results {
        assert_eq!(label, 1);
    }
}

#[test]
fn grid_bbox_covers_extent() {
    let mut data = grid_3x3();
    let results = DbScan { epsilon: 2, min_points: 4 }.run(&data);
    let mut history: Vec<Cluster> = Vec::new();
    let mut last_id = 0usize;
    let clusters = refine_clusters(&mut data, &results, false, &mut history, 1000, &mut last_id);
    assert_eq!(clusters.len(), 1);
    assert_eq!(clusters[0].bbox, BBox { top: 0, right: 2, bottom: 2, left: 0 });
    assert_eq!(clusters[0].points.len(), 9);
    assert!(!clusters[0].within);
    assert_eq!(history.len(), 1);
    assert_eq!(history[0].id, 1);
    assert_eq!(last_id, 1);
}

#[test]
fn distant_pair_stays_noise() {
    let data = vec![mv_at(0, 0), mv_at(10, 10)];
    let scanner = DbScan { epsilon: 2, min_points: 2 };
    let results = scanner.run(&data);
    assert_eq!(results, vec![0, 0]);
    let mut data = data;
    let mut history: Vec<Cluster> = Vec::new();
    let mut last_id = 0usize;
    let clusters = refine_clusters(&mut data, &results, false, &mut history, 500, &mut last_id);
    assert!(clusters.is_empty());
    assert!(history.is_empty());
    assert_eq!(last_id, 0);
}

#[test]
fn labels_partition_candidates() {
    // The grid plus one isolated point: labels stay within the candidate
    // count, and noise plus cluster sizes account for every candidate.
    let mut data = grid_3x3();
    data.push(mv_at(100, 100));
    let results = DbScan { epsilon: 2, min_points: 4 }.run(&data);
    let max = *results.iter().max().unwrap();
    assert!(max <= data.len());
    let noise = results.iter().filter(|&&l| l == 0).count();
    let mut clustered = 0;
    for c in 1..=max {
        clustered += results.iter().filter(|&&l| l == c).count();
    }
    assert_eq!(noise + clustered, data.len());
    assert_eq!(noise, 1);
    assert_eq!(clustered, 9);
}

#[test]
fn clusterer_is_idempotent() {
    let data = grid_3x3();
    let scanner = DbScan { epsilon: 2, min_points: 4 };
    let first = scanner.run(&data);
    let second = scanner.run(&data);
    assert_eq!(first, second);
}

#[test]
fn cluster_means_are_member_averages() {
    // Two adjacent candidates with known direction and magnitude values.
    let mut a = mv_at(0, 0);
    a.dir = 100;
    a.mag = 10;
    let mut b = mv_at(0, 1);
    b.dir = 200;
    b.mag = 20;
    let mut data = vec![a, b];
    let results = DbScan { epsilon: 2, min_points: 1 }.run(&data);
    assert_eq!(results, vec![1, 1]);
    let mut history: Vec<Cluster> = Vec::new();
    let mut last_id = 0usize;
    let clusters = refine_clusters(&mut data, &results, false, &mut history, 0, &mut last_id);
    assert_eq!(clusters.len(), 1);
    assert_eq!(clusters[0].dir, 150);
    assert_eq!(clusters[0].mag, 15);
    assert_eq!(history[0].dir, 150);
    assert_eq!(history[0].mag, 15);
}

#[test]
fn nested_cluster_is_flagged_within() {
    let mut inner = Cluster::new();
    inner.bbox = BBox { top: 1, right: 2, bottom: 2, left: 1 };
    let mut outer = Cluster::new();
    outer.bbox = BBox { top: 0, right: 3, bottom: 3, left: 0 };
    let clusters = vec![inner, outer];
    assert!(is_within(0, &clusters));
    assert!(!is_within(1, &clusters));
}

#[test]
fn containment_chain_reaches_outermost() {
    let mut a = Cluster::new();
    a.bbox = BBox { top: 2, right: 3, bottom: 3, left: 2 };
    let mut b = Cluster::new();
    b.bbox = BBox { top: 1, right: 4, bottom: 4, left: 1 };
    let mut c = Cluster::new();
    c.bbox = BBox { top: 0, right: 5, bottom: 5, left: 0 };
    // a within b, b within c, and a also within c: containment carries
    // through the chain, and the innermost box is inside both others.
    let abc = vec![a, b, c];
    assert!(is_within(0, &abc));
    assert!(is_within(1, &abc));
    assert!(!is_within(2, &abc));
    let just_a_c = vec![abc[0].clone(), abc[2].clone()];
    assert!(is_within(0, &just_a_c));
}
