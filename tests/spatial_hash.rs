use crowd_avoidance::spatial_hash::SpatialHash;

#[test]
fn insert_and_query_single_entity() {
    let mut hash = SpatialHash::new(50);
    let entity: u64 = 1;
    hash.insert(entity, 25, 25);

    let neighbors = hash.query_neighbors(25, 25, 10);
    assert!(neighbors.contains(&entity), "Should find the inserted entity");
}

#[test]
fn query_returns_entities_within_radius() {
    let mut hash = SpatialHash::new(50);
    let e1: u64 = 1;
    let e2: u64 = 2;
    hash.insert(e1, 10, 10);
    hash.insert(e2, 40, 10);

    let neighbors = hash.query_neighbors(25, 10, 20);
    assert!(neighbors.contains(&e1), "Should find e1 within radius");
    assert!(neighbors.contains(&e2), "Should find e2 within radius");
}

#[test]
fn query_excludes_distant_entities() {
    let mut hash = SpatialHash::new(50);
    let near: u64 = 1;
    let far: u64 = 2;
    hash.insert(near, 10, 10);
    hash.insert(far, 500, 500);

    let neighbors = hash.query_neighbors(10, 10, 30);
    assert!(neighbors.contains(&near), "Should find nearby entity");
    assert!(!neighbors.contains(&far), "Should not find distant entity");
}

#[test]
fn clear_removes_all_entries() {
    let mut hash = SpatialHash::new(50);
    hash.insert(1, 10, 10);
    hash.insert(2, 100, 100);
    hash.clear();

    let neighbors = hash.query_neighbors(10, 10, 1000);
    assert!(neighbors.is_empty(), "Should find nothing after clear");
}

#[test]
fn entities_on_cell_boundary_found_by_neighbors() {
    let mut hash = SpatialHash::new(50);
    let entity: u64 = 1;
    // Exactly on the boundary between cells 0 and 1.
    hash.insert(entity, 50, 0);

    let neighbors = hash.query_neighbors(49, 0, 5);
    assert!(neighbors.contains(&entity), "Entity on boundary should be found by nearby query");
}

#[test]
fn large_radius_covers_many_cells() {
    let mut hash = SpatialHash::new(10);
    let mut entities = Vec::new();
    for i in 1..=5u64 {
        hash.insert(i, (i as i32) * 15, 0);
        entities.push(i);
    }

    let neighbors = hash.query_neighbors(30, 0, 50);
    for e in &entities {
        assert!(neighbors.contains(e), "Large radius should find entity {e}");
    }
}

#[test]
fn boundary_entity_found_from_cell_on_the_right() {
    let mut hash = SpatialHash::new(50);
    hash.insert(7, 50, 0);
    assert_eq!(hash.query_neighbors(51, 0, 5), vec![7]);
    assert_eq!(hash.query_neighbors(49, 0, 5), vec![7]);
}

#[test]
fn boundary_point_belongs_to_upper_cell() {
    let hash = SpatialHash::new(50);
    assert_eq!(hash.cell_coords(50, 0), (1, 0));
    assert_eq!(hash.cell_coords(49, 0), (0, 0));
}

#[test]
fn negative_positions_round_down() {
    let hash = SpatialHash::new(50);
    assert_eq!(hash.cell_coords(-1, -50), (-1, -1));
    assert_eq!(hash.cell_coords(-51, -100), (-2, -2));
    assert_eq!(hash.cell_coords(0, 0), (0, 0));
}

#[test]
fn extreme_coordinates_stay_in_range() {
    let hash = SpatialHash::new(1);
    assert_eq!(hash.cell_coords(i32::MIN, i32::MAX), (i32::MIN, i32::MAX));
    let mut hash = SpatialHash::new(1);
    hash.insert(3, i32::MIN, i32::MAX);
    assert_eq!(hash.query_neighbors(i32::MIN, i32::MAX, 1), vec![3]);
}

#[test]
fn radius_zero_at_empty_cell_returns_nothing() {
    let mut hash = SpatialHash::new(50);
    hash.insert(1, 10, 10);
    hash.insert(2, 120, 10);
    assert!(hash.query_neighbors(70, 10, 0).is_empty());
}

#[test]
fn radius_zero_returns_whole_cell_without_filtering() {
    let mut hash = SpatialHash::new(50);
    hash.insert(1, 10, 10);
    // Same cell, different point: no distance filtering.
    assert_eq!(hash.query_neighbors(40, 40, 0), vec![1]);
}

#[test]
fn query_lists_buckets_column_by_column_in_insert_order() {
    let mut hash = SpatialHash::new(10);
    hash.insert(1, 15, 15); // cell (1, 1)
    hash.insert(2, 5, 15); // cell (0, 1)
    hash.insert(3, 15, 5); // cell (1, 0)
    hash.insert(4, 5, 5); // cell (0, 0)
    hash.insert(5, 6, 6); // cell (0, 0)
    assert_eq!(hash.query_neighbors(10, 10, 5), vec![4, 5, 2, 3, 1]);
}

#[test]
fn duplicate_insert_keeps_both() {
    let mut hash = SpatialHash::new(50);
    hash.insert(9, 10, 10);
    hash.insert(9, 10, 10);
    assert_eq!(hash.query_neighbors(10, 10, 0), vec![9, 9]);
}

#[test]
fn clear_keeps_cell_size() {
    let mut hash = SpatialHash::new(37);
    hash.insert(1, 0, 0);
    hash.clear();
    assert_eq!(hash.cell_size(), 37);
    hash.insert(2, 37, 0);
    assert_eq!(hash.cell_coords(37, 0), (1, 0));
    assert_eq!(hash.query_neighbors(40, 0, 0), vec![2]);
}

#[test]
fn negative_radius_covers_nothing() {
    let mut hash = SpatialHash::new(50);
    hash.insert(1, 10, 10);
    assert!(hash.query_neighbors(10, 10, -60).is_empty());
}

#[test]
fn many_agents_all_found_by_covering_query() {
    let mut hash = SpatialHash::new(25);
    let mut ids = Vec::new();
    for i in 0..20u64 {
        let x = (i as i32) * 13 - 120;
        let y = 90 - (i as i32) * 11;
        hash.insert(i + 100, x, y);
        ids.push(i + 100);
    }
    let found = hash.query_neighbors(0, 0, 200);
    assert_eq!(found.len(), 20);
    for id in &ids {
        assert!(found.contains(id));
    }
}
