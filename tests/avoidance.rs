use crowd_avoidance::avoidance::{
    avoid_agent, compute_avoidance, gather_lines, rebuild_spatial_hash, SnapshotIndex,
};
use crowd_avoidance::spatial_hash::SpatialHash;

/// The search radius and cell width the game uses: top speed times the look-ahead.
const NEIGHBOR_DISTANCE: i32 = 150;
const MAX_NEIGHBORS: u32 = 10;

fn no_line(_agent: usize, _slot: usize) -> Option<(f32, f32)> {
    panic!("no neighbor should be considered")
}

fn no_solve(_agent: usize, _lines: Vec<(f32, f32)>) -> (f32, f32) {
    panic!("no solve should run without constraints")
}

fn tick(ids: &Vec<u64>, positions: &Vec<(i32, i32)>, preferred: &Vec<(f32, f32)>) -> Vec<(f32, f32)> {
    let mut hash = SpatialHash::new(NEIGHBOR_DISTANCE);
    rebuild_spatial_hash(&mut hash, ids, positions);
    compute_avoidance(
        ids,
        positions,
        preferred,
        &hash,
        NEIGHBOR_DISTANCE,
        MAX_NEIGHBORS,
        &no_line,
        &no_solve,
    )
}

#[test]
fn lone_unit_keeps_preferred_velocity() {
    let ids = vec![1u64];
    let positions = vec![(100, 100)];
    let preferred = vec![(50.0f32, 0.0f32)];
    let vel = tick(&ids, &positions, &preferred);
    assert!(
        ((vel[0].0 - 50.0).powi(2) + vel[0].1.powi(2)).sqrt() < 1.0,
        "Lone unit should keep preferred, got {:?}",
        vel[0]
    );
}

#[test]
fn zero_preferred_stays_zero() {
    let ids = vec![1u64];
    let positions = vec![(100, 100)];
    let preferred = vec![(0.0f32, 0.0f32)];
    let vel = tick(&ids, &positions, &preferred);
    assert!((vel[0].0.powi(2) + vel[0].1.powi(2)).sqrt() < f32::EPSILON);
}

#[test]
fn distant_units_no_avoidance() {
    let ids = vec![1u64, 2];
    let positions = vec![(0, 0), (1000, 1000)];
    let preferred = vec![(50.0f32, 0.0f32), (-50.0, 0.0)];
    let vel = tick(&ids, &positions, &preferred);
    assert!(
        ((vel[0].0 - 50.0).powi(2) + vel[0].1.powi(2)).sqrt() < 1.0,
        "Distant agents should not affect each other, got {:?}",
        vel[0]
    );
}

#[test]
fn single_agent_without_neighbors_gets_exact_preferred() {
    let ids = vec![5u64];
    let positions = vec![(0, 0)];
    let preferred = vec![(50.0f32, 0.0f32)];
    assert_eq!(tick(&ids, &positions, &preferred), vec![(50.0, 0.0)]);
}

#[test]
fn far_apart_pair_keeps_both_preferred() {
    let ids = vec![1u64, 2];
    let positions = vec![(0, 0), (1000, 0)];
    let preferred = vec![(50.0f32, 0.0f32), (-50.0, 0.0)];
    assert_eq!(tick(&ids, &positions, &preferred), vec![(50.0, 0.0), (-50.0, 0.0)]);
}

#[test]
fn snapshot_index_keeps_later_slot_for_repeated_id() {
    let index = SnapshotIndex::from_ids(&vec![4, 8, 4]);
    assert_eq!(index.slot_of(4), Some(2));
    assert_eq!(index.slot_of(8), Some(1));
    assert_eq!(index.slot_of(5), None);
}

#[test]
fn gather_skips_self_and_unknown_ids() {
    let index = SnapshotIndex::from_ids(&vec![10, 11, 12]);
    let candidates = vec![11, 99, 10, 12];
    let lines = gather_lines(1, &candidates, 11, &index, 10, &|agent: usize, slot: usize| {
        Some((agent, slot))
    });
    assert_eq!(lines, vec![(1, 0), (1, 2)]);
}

#[test]
fn gather_stops_at_max_neighbors() {
    let index = SnapshotIndex::from_ids(&vec![0, 1, 2, 3, 4, 5]);
    let candidates = vec![1, 2, 3, 4, 5];
    let lines = gather_lines(0, &candidates, 0, &index, 2, &|_agent: usize, slot: usize| Some(slot));
    assert_eq!(lines, vec![1, 2]);
}

#[test]
fn gather_counts_only_present_constraints() {
    let index = SnapshotIndex::from_ids(&vec![0, 1, 2, 3, 4, 5]);
    let candidates = vec![1, 2, 3, 4, 5];
    // Odd slots give no constraint, so they do not count towards the cap.
    let lines = gather_lines(0, &candidates, 0, &index, 2, &|_agent: usize, slot: usize| {
        if slot % 2 == 0 {
            Some(slot)
        } else {
            None
        }
    });
    assert_eq!(lines, vec![2, 4]);
}

#[test]
fn gather_with_zero_cap_considers_nobody() {
    let index = SnapshotIndex::from_ids(&vec![0, 1]);
    let lines = gather_lines(0, &vec![1], 0, &index, 0, &no_line);
    assert!(lines.is_empty());
}

#[test]
fn avoid_agent_solves_when_constraints_exist() {
    let index = SnapshotIndex::from_ids(&vec![0, 1, 2]);
    let v = avoid_agent(
        0,
        &vec![0, 1, 2],
        0,
        &index,
        10,
        -1i64,
        &|_agent: usize, slot: usize| Some(slot as i64),
        &|agent: usize, lines: Vec<i64>| (agent as i64) * 100 + lines.iter().sum::<i64>(),
    );
    assert_eq!(v, 3);
}

#[test]
fn avoid_agent_keeps_preferred_when_no_constraint_is_present() {
    let index = SnapshotIndex::from_ids(&vec![0, 1, 2]);
    let v = avoid_agent(
        0,
        &vec![1, 2],
        0,
        &index,
        10,
        7i64,
        &|_agent: usize, _slot: usize| None::<i64>,
        &|_agent: usize, _lines: Vec<i64>| -> i64 { panic!("no constraints, no solve") },
    );
    assert_eq!(v, 7);
}

#[test]
fn tick_uses_snapshot_neighbors_only() {
    // Three agents: 0 and 1 close together, 2 far away.
    let ids = vec![100u64, 101, 102];
    let positions = vec![(0, 0), (30, 0), (5000, 5000)];
    let preferred = vec![1i64, 2, 3];
    let mut hash = SpatialHash::new(NEIGHBOR_DISTANCE);
    rebuild_spatial_hash(&mut hash, &ids, &positions);
    let result = compute_avoidance(
        &ids,
        &positions,
        &preferred,
        &hash,
        NEIGHBOR_DISTANCE,
        MAX_NEIGHBORS,
        &|agent: usize, slot: usize| Some((agent * 10 + slot) as i64),
        &|agent: usize, lines: Vec<i64>| -1000 * (agent as i64 + 1) - lines.iter().sum::<i64>(),
    );
    assert_eq!(result, vec![-1000 - 1, -2000 - 10, 3]);
}

#[test]
fn rebuild_replaces_previous_contents() {
    let mut hash = SpatialHash::new(50);
    hash.insert(77, 0, 0);
    rebuild_spatial_hash(&mut hash, &vec![1, 2], &vec![(10, 10), (400, 400)]);
    assert_eq!(hash.query_neighbors(10, 10, 0), vec![1]);
    assert_eq!(hash.query_neighbors(400, 400, 0), vec![2]);
    assert_eq!(hash.query_neighbors(0, 0, 500).len(), 2);
}
