use mvr::cluster::{BBox, Cluster};
use mvr::tracker::{overlaps, overlaps_any, temporal_expiration, track_temporal};

fn cluster_with_bbox(top: i16, right: i16, bottom: i16, left: i16) -> Cluster {
    let mut c = Cluster::new();
    c.bbox = BBox { top, right, bottom, left };
    c
}

#[test]
fn overlap_test_matches_rectangle_intersection() {
    let a = cluster_with_bbox(0, 5, 5, 0);
    let b = cluster_with_bbox(3, 8, 8, 3);
    let c = cluster_with_bbox(6, 9, 9, 6);
    assert!(overlaps(&a, &b));
    assert!(overlaps(&b, &a));
    assert!(overlaps(&b, &c));
    assert!(!overlaps(&a, &c));
    assert!(!overlaps(&c, &a));
    // A box overlaps itself.
    assert!(overlaps(&a, &a));
}

#[test]
fn first_overlap_wins() {
    let first = cluster_with_bbox(0, 5, 5, 0);
    let second = cluster_with_bbox(2, 7, 7, 2);
    let history = vec![first, second];
    let probe = cluster_with_bbox(3, 6, 6, 3);
    // Both entries overlap the probe; the earlier one is chosen.
    assert_eq!(overlaps_any(&probe, &history), Some(0));
    let far = cluster_with_bbox(100, 105, 105, 100);
    assert_eq!(overlaps_any(&far, &history), None);
}

#[test]
fn new_cluster_gets_fresh_identity() {
    let mut history: Vec<Cluster> = Vec::new();
    let mut last_id = 0usize;
    let mut c = cluster_with_bbox(0, 5, 5, 0);
    track_temporal(&mut history, &mut c, 100, &mut last_id);
    assert_eq!(history.len(), 1);
    assert_eq!(history[0].id, 1);
    assert_eq!(history[0].birth, 100);
    assert_eq!(history[0].active, 100);
    assert_eq!(history[0].age, 0);
    assert_eq!(last_id, 1);
}

#[test]
fn constant_bbox_keeps_identity_and_ages() {
    // A cluster held at one bounding box across three frames 100 apart:
    // one identity throughout, and age (frames - 1) * interval at the end.
    let mut history: Vec<Cluster> = Vec::new();
    let mut last_id = 0usize;
    for (frame, now) in [100u128, 200, 300].iter().enumerate() {
        let mut c = cluster_with_bbox(0, 5, 5, 0);
        track_temporal(&mut history, &mut c, *now, &mut last_id);
        assert_eq!(history.len(), 1);
        assert_eq!(history[0].id, 1);
        assert_eq!(history[0].birth, 100);
        assert_eq!(history[0].age, (frame as u128) * 100);
        if frame > 0 {
            assert_eq!(c.age, (frame as u128) * 100);
        }
    }
    assert_eq!(last_id, 1);
}

#[test]
fn refresh_overwrites_geometry_and_content() {
    let mut history: Vec<Cluster> = Vec::new();
    let mut last_id = 0usize;
    let mut c = cluster_with_bbox(0, 5, 5, 0);
    c.mag = 7;
    c.dir = 90;
    track_temporal(&mut history, &mut c, 100, &mut last_id);
    let mut d = cluster_with_bbox(1, 6, 6, 1);
    d.mag = 9;
    d.dir = 180;
    track_temporal(&mut history, &mut d, 150, &mut last_id);
    assert_eq!(history.len(), 1);
    assert_eq!(history[0].bbox, BBox { top: 1, right: 6, bottom: 6, left: 1 });
    assert_eq!(history[0].mag, 9);
    assert_eq!(history[0].dir, 180);
    assert_eq!(history[0].birth, 100);
    assert_eq!(history[0].active, 150);
    assert_eq!(history[0].id, 1);
}

#[test]
fn expiration_boundary_is_exact() {
    // An entry last active at 1000 with threshold 2000 stands at 3000
    // and is gone at 3001.
    let mut history: Vec<Cluster> = Vec::new();
    let mut last_id = 0usize;
    let mut c = cluster_with_bbox(0, 5, 5, 0);
    track_temporal(&mut history, &mut c, 1000, &mut last_id);
    temporal_expiration(&mut history, 3000, 2000);
    assert_eq!(history.len(), 1);
    temporal_expiration(&mut history, 3001, 2000);
    assert!(history.is_empty());
}

#[test]
fn absent_cluster_expires_after_threshold() {
    // A cluster seen once at frame 1 and never again: after enough empty
    // frames for the inactivity to pass the threshold, history is empty.
    let mut history: Vec<Cluster> = Vec::new();
    let mut last_id = 0usize;
    let mut c = cluster_with_bbox(0, 5, 5, 0);
    let interval = 500u128;
    track_temporal(&mut history, &mut c, interval, &mut last_id);
    let threshold = 2000u128;
    let mut frame = 2u128;
    loop {
        let now = frame * interval;
        if !history.is_empty() {
            temporal_expiration(&mut history, now, threshold);
        }
        if frame * interval > threshold + interval {
            break;
        }
        frame += 1;
    }
    assert!(history.is_empty());
    // The identity counter is never rolled back.
    assert_eq!(last_id, 1);
}

#[test]
fn expiration_keeps_recent_entries_in_order() {
    let mut history: Vec<Cluster> = Vec::new();
    let mut last_id = 0usize;
    let mut a = cluster_with_bbox(0, 2, 2, 0);
    let mut b = cluster_with_bbox(10, 12, 12, 10);
    let mut c = cluster_with_bbox(20, 22, 22, 20);
    track_temporal(&mut history, &mut a, 100, &mut last_id);
    track_temporal(&mut history, &mut b, 400, &mut last_id);
    track_temporal(&mut history, &mut c, 700, &mut last_id);
    temporal_expiration(&mut history, 900, 600);
    assert_eq!(history.len(), 2);
    assert_eq!(history[0].id, 2);
    assert_eq!(history[1].id, 3);
}
