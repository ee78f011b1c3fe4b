use peregrine::fixed::{FixedNum, FixedVec2};
use peregrine::spatial_hash::query::SpatialHashScratch;
use peregrine::spatial_hash::{OccupiedCell, SpatialHash};

fn fnum(v: f64) -> FixedNum {
    FixedNum::from_bits((v * 65536.0) as i64)
}

fn vec2(x: f64, y: f64) -> FixedVec2 {
    FixedVec2::new(fnum(x), fnum(y))
}

/// Entity bits with generation 1, never the placeholder.
fn test_entity(id: u32) -> u64 {
    (id as u64) << 32 | 1
}

/// A hash over a 100 by 100 map for the given entity radii with cells four
/// times the radius; radii whose cells are within 20% of an existing one
/// share it, and cell sizes are sorted.
fn make_hash(radii: &[f64], capacity: usize) -> SpatialHash {
    let ratio = 4.0;
    let mut cell_sizes: Vec<FixedNum> = Vec::new();
    for &r in radii {
        let cs = fnum(r * ratio);
        let close = cell_sizes.iter().any(|c| {
            let q = c.bits as f64 / cs.bits as f64;
            q >= 0.8 && q <= 1.2
        });
        if !close {
            cell_sizes.push(cs);
        }
    }
    cell_sizes.sort_by_key(|c| c.bits);
    SpatialHash::new(fnum(100.0), fnum(100.0), &cell_sizes, fnum(ratio), capacity, false)
}

fn query(hash: &SpatialHash, exclude: Option<u64>, pos: FixedVec2, radius: FixedNum) -> Vec<u64> {
    let mut scratch = SpatialHashScratch::new(10_000);
    hash.query_radius(pos, radius, exclude, &mut scratch);
    scratch.query_results.clone()
}

fn fragmentation(hash: &SpatialHash) -> f32 {
    let classes = hash.size_classes();
    if classes.is_empty() {
        return 0.0;
    }
    let mut total = 0.0f32;
    for sc in classes.iter() {
        let mut per = 0.0f32;
        for g in [&sc.grid_a, &sc.grid_b] {
            let len = g.storage_len();
            if len > 0 {
                per += g.tombstone_count() as f32 / len as f32;
            }
        }
        total += per / 2.0;
    }
    total / classes.len() as f32
}

#[test]
fn tests_test_query_radius_finds_entities_within_range() {
    let mut hash = make_hash(&[0.5, 10.0, 25.0], 10_000);
    let entity_a = 1u64;
    let entity_b = 2u64;
    let entity_c = 3u64;
    let pos_a = vec2(0.0, 0.0);
    hash.insert(entity_a, pos_a, fnum(0.5));
    hash.insert(entity_b, vec2(5.0, 0.0), fnum(0.5));
    hash.insert(entity_c, vec2(0.0, 5.0), fnum(0.5));
    let results = query(&hash, Some(entity_a), pos_a, fnum(10.0));
    assert_eq!(results.len(), 2, "Should find 2 neighbors within radius");
    assert!(results.iter().any(|e| *e == entity_b), "Should find entity B");
    assert!(results.iter().any(|e| *e == entity_c), "Should find entity C");
    assert!(!results.iter().any(|e| *e == entity_a), "Should NOT find self");
}

#[test]
fn tests_test_query_radius_excludes_entities_outside_range() {
    let mut hash = make_hash(&[0.5, 10.0, 25.0], 10_000);
    let entity_a = 1u64;
    let entity_b = 2u64;
    let entity_c = 3u64;
    let pos_a = vec2(0.0, 0.0);
    hash.insert(entity_a, pos_a, fnum(0.5));
    hash.insert(entity_b, vec2(3.0, 0.0), fnum(0.5));
    hash.insert(entity_c, vec2(20.0, 0.0), fnum(0.5));
    let results = query(&hash, Some(entity_a), pos_a, fnum(5.0));
    assert!(results.iter().any(|e| *e == entity_b), "Should find nearby entity B");
}

#[test]
fn tests_test_spatial_hash_excludes_self() {
    let mut hash = make_hash(&[0.5, 10.0, 25.0], 10_000);
    let entity = 1u64;
    let pos = vec2(0.0, 0.0);
    hash.insert(entity, pos, fnum(0.5));
    let results = query(&hash, Some(entity), pos, fnum(10.0));
    assert_eq!(results.len(), 0, "Entity should not find itself in query results");
}

#[test]
fn tests_test_spatial_hash_query_finds_neighbors() {
    let mut hash = make_hash(&[0.5, 10.0, 25.0], 10_000);
    let entity_a = 0x0000000100000001u64;
    let entity_b = 0x0000000200000001u64;
    let pos_a = vec2(0.0, 0.0);
    let pos_b = vec2(2.0, 2.0);
    let occupied_a: OccupiedCell = hash.insert(entity_a, pos_a, fnum(0.5));
    let occupied_b: OccupiedCell = hash.insert(entity_b, pos_b, fnum(0.5));
    println!("Entity A at {:?}, occupied: {:?}", pos_a, occupied_a);
    println!("Entity B at {:?}, occupied: {:?}", pos_b, occupied_b);
    let results = query(&hash, Some(entity_a), pos_a, fnum(5.0));
    assert_eq!(results.len(), 1, "A should find exactly one neighbor (B)");
    assert_eq!(results[0], entity_b, "A should find B");
    let results = query(&hash, Some(entity_b), pos_b, fnum(5.0));
    assert_eq!(results.len(), 1, "B should find exactly one neighbor (A)");
    assert_eq!(results[0], entity_a, "B should find A");
}

#[test]
fn tests_test_spatial_hash_empty_cell_returns_empty() {
    let hash = make_hash(&[0.5, 10.0, 25.0], 10_000);
    let results = query(&hash, Some(1), vec2(0.0, 0.0), fnum(10.0));
    assert_eq!(results.len(), 0, "Empty hash should return no results");
}

#[test]
fn tests_test_spatial_hash_boundary_cases() {
    let mut hash = make_hash(&[0.5, 10.0, 25.0], 10_000);
    let entity_corner = 1u64;
    let entity_center = 2u64;
    let entity_edge = 3u64;
    let pos_corner = vec2(-49.0, -49.0);
    let pos_center = vec2(0.0, 0.0);
    hash.insert(entity_corner, pos_corner, fnum(0.5));
    hash.insert(entity_center, pos_center, fnum(0.5));
    hash.insert(entity_edge, vec2(49.0, 0.0), fnum(0.5));
    let results = query(&hash, Some(entity_corner), pos_corner, fnum(5.0));
    assert_eq!(results.len(), 0, "Corner entity should not find distant entities");
    let results = query(&hash, Some(entity_center), pos_center, fnum(60.0));
    assert!(results.len() >= 1, "Center should find at least one other entity with large radius");
}

#[test]
fn tests_test_query_radius_returns_same_results_as_brute_force() {
    let mut hash = make_hash(&[0.5, 10.0, 25.0], 10_000);
    let entities: Vec<(u64, FixedVec2)> = vec![
        (1, vec2(0.0, 0.0)),
        (2, vec2(5.0, 0.0)),
        (3, vec2(0.0, 5.0)),
        (4, vec2(15.0, 0.0)),
        (5, vec2(0.0, 15.0)),
        (6, vec2(-10.0, -10.0)),
    ];
    for (entity, pos) in &entities {
        hash.insert(*entity, *pos, fnum(0.5));
    }
    let query_entity = entities[0].0;
    let query_pos = entities[0].1;
    let query_radius = fnum(12.0);
    let spatial_results = query(&hash, Some(query_entity), query_pos, query_radius);
    let mut brute_force_results = Vec::new();
    for (entity, pos) in &entities {
        if *entity != query_entity {
            let dx = (query_pos.x.bits - pos.x.bits).abs();
            let dy = (query_pos.y.bits - pos.y.bits).abs();
            if dx <= query_radius.bits && dy <= query_radius.bits {
                brute_force_results.push(*entity);
            }
        }
    }
    assert!(spatial_results.len() >= brute_force_results.len());
    for entity in &brute_force_results {
        assert!(spatial_results.iter().any(|e| e == entity), "Spatial hash should find entity {:?}", entity);
    }
}

#[test]
fn tests_test_get_potential_collisions_excludes_self() {
    let mut hash = make_hash(&[0.5, 10.0, 25.0], 10_000);
    let entity = 1u64;
    let pos = vec2(0.0, 0.0);
    hash.insert(entity, pos, fnum(0.5));
    let results = query(&hash, Some(entity), pos, fnum(10.0));
    assert_eq!(results.len(), 0, "get_potential_collisions should not include excluded entity");
}

#[test]
fn tests_test_get_potential_collisions_includes_all_without_exclusion() {
    let mut hash = make_hash(&[0.5, 10.0, 25.0], 10_000);
    let entity1 = test_entity(1);
    let entity2 = test_entity(2);
    let pos = vec2(0.0, 0.0);
    hash.insert(entity1, pos, fnum(0.5));
    hash.insert(entity2, pos, fnum(0.5));
    let results = query(&hash, None, pos, fnum(10.0));
    assert_eq!(results.len(), 2, "get_potential_collisions should include all entities when exclude_entity is None");
}

#[test]
fn tests_test_get_potential_collisions_finds_neighbors_excludes_self() {
    let mut hash = make_hash(&[0.5, 10.0, 25.0], 10_000);
    let entity1 = 1u64;
    let entity2 = 2u64;
    let pos1 = vec2(0.0, 0.0);
    hash.insert(entity1, pos1, fnum(0.5));
    hash.insert(entity2, vec2(5.0, 0.0), fnum(0.5));
    let results = query(&hash, Some(entity1), pos1, fnum(10.0));
    assert_eq!(results.len(), 1, "Should find 1 neighbor");
    assert_eq!(results[0], entity2, "Should find entity2");
    assert!(results.iter().all(|e| *e != entity1), "Should not find self");
}

#[test]
fn test_compaction_removes_tombstones() {
    let mut hash = make_hash(&[0.5], 10_000);
    let entities: Vec<u64> = (0..10).map(test_entity).collect();
    let pos = vec2(0.0, 0.0);
    let occupied_cells: Vec<OccupiedCell> = entities.iter().map(|&e| hash.insert(e, pos, fnum(0.5))).collect();
    for i in 0..5 {
        hash.remove(entities[i], &occupied_cells[i]);
    }
    let frag_before = fragmentation(&hash);
    assert!(frag_before > 0.0, "Should have fragmentation after removals");
    for k in 0..hash.num_classes() {
        let sc = &hash.size_classes()[k];
        let mut frag = 0.0f32;
        for g in [&sc.grid_a, &sc.grid_b] {
            let len = g.storage_len();
            if len > 0 {
                frag += g.tombstone_count() as f32 / len as f32;
            }
        }
        if frag / 2.0 > 0.0 {
            hash.compact_class(k);
        }
    }
    let frag_after = fragmentation(&hash);
    let results = query(&hash, None, pos, fnum(10.0));
    assert_eq!(frag_after, 0.0, "Fragmentation should be 0 after compaction");
    assert_eq!(results.len(), 5, "Should still find the 5 non-removed entities");
}

#[test]
fn insert_goes_to_grid_with_nearer_centre() {
    let mut hash = make_hash(&[0.5], 100);
    // Cells of size 2 over a map centred on the origin: grid A has a cell
    // centre at (1, 1), grid B (shifted by one) at (0, 0).
    let occ = hash.insert(test_entity(7), vec2(1.0, 1.0), fnum(0.5));
    assert_eq!(occ.grid_offset, 0);
    assert_eq!((occ.col, occ.row), (25, 25));
    let occ = hash.insert(test_entity(8), vec2(0.0, 0.0), fnum(0.5));
    assert_eq!(occ.grid_offset, 1);
    assert_eq!((occ.col, occ.row), (24, 24));
}

#[test]
fn classify_picks_first_class_large_enough() {
    let hash = make_hash(&[0.5, 10.0, 25.0], 100);
    assert_eq!(hash.classify_entity(fnum(0.5)), 0);
    assert_eq!(hash.classify_entity(fnum(0.6)), 1);
    assert_eq!(hash.classify_entity(fnum(25.0)), 2);
    assert_eq!(hash.classify_entity(fnum(100.0)), 2);
}

#[test]
fn update_moves_entity_to_other_grid() {
    let mut hash = make_hash(&[0.5], 100);
    let e = test_entity(3);
    let occ = hash.insert(e, vec2(1.0, 1.0), fnum(0.5));
    assert!(hash.should_update(vec2(1.0, 1.0), &occ).is_none());
    let moved = hash.update(e, vec2(0.1, 0.1), &occ).expect("entity should move to grid B");
    assert_eq!(moved.grid_offset, 1);
    let results = query(&hash, None, vec2(0.1, 0.1), fnum(1.0));
    assert_eq!(results, vec![e]);
}

#[test]
fn query_stops_at_capacity() {
    let mut hash = make_hash(&[0.5], 100);
    for i in 0..5 {
        hash.insert(test_entity(i), vec2(0.0, 0.0), fnum(0.5));
    }
    let mut scratch = SpatialHashScratch::new(3);
    hash.query_radius(vec2(0.0, 0.0), fnum(4.0), None, &mut scratch);
    assert_eq!(scratch.query_results.len(), 3);
}

#[test]
fn clear_empties_every_class() {
    let mut hash = make_hash(&[0.5, 10.0], 100);
    hash.insert(test_entity(1), vec2(0.0, 0.0), fnum(0.5));
    hash.insert(test_entity(2), vec2(3.0, 0.0), fnum(9.0));
    assert_eq!(hash.total_entries(), 2);
    hash.clear();
    assert_eq!(hash.total_entries(), 0);
    assert!(query(&hash, None, vec2(0.0, 0.0), fnum(10.0)).is_empty());
}

#[test]
fn rebuild_from_entity_list_places_every_entity() {
    let sizes = vec![fnum(4.0)];
    let mut hash = SpatialHash::new(fnum(100.0), fnum(100.0), &sizes, fnum(4.0), 1000, true);
    let ents = vec![
        (test_entity(1), vec2(0.0, 0.0), fnum(0.5)),
        (test_entity(2), vec2(1.0, 0.0), fnum(0.5)),
        (test_entity(3), vec2(30.0, 30.0), fnum(0.5)),
    ];
    hash.rebuild_from_entity_list(&ents);
    assert_eq!(hash.total_entries(), 3);
    assert_eq!(hash.size_classes()[0].entity_count, 3);
    assert!(!hash.should_rebuild());
    let near = query(&hash, Some(test_entity(1)), vec2(0.0, 0.0), fnum(2.0));
    assert_eq!(near, vec![test_entity(2)]);
    let all = query(&hash, None, vec2(0.0, 0.0), fnum(60.0));
    assert_eq!(all.len(), 3);
}

#[test]
fn rebuild_all_with_headroom_uses_stored_cells() {
    let sizes = vec![fnum(4.0)];
    let mut hash = SpatialHash::new(fnum(100.0), fnum(100.0), &sizes, fnum(4.0), 1000, true);
    let mut stored = Vec::new();
    for (id, x, y) in [(1u32, 0.0, 0.0), (2, 1.0, 0.0), (3, -20.0, 10.0)] {
        let occ = hash.insert(test_entity(id), vec2(x, y), fnum(0.5));
        stored.push((test_entity(id), vec2(x, y), fnum(0.5), occ));
    }
    assert!(hash.should_rebuild());
    hash.rebuild_all_with_headroom(&stored);
    assert_eq!(hash.total_entries(), 3);
    assert_eq!(hash.size_classes()[0].entity_count, 3);
    assert!(!hash.should_rebuild());
    let near = query(&hash, Some(test_entity(1)), vec2(0.0, 0.0), fnum(2.0));
    assert_eq!(near, vec![test_entity(2)]);
    let far = query(&hash, None, vec2(-20.0, 10.0), fnum(1.0));
    assert_eq!(far, vec![test_entity(3)]);
}

#[test]
fn query_cell_reports_the_cells_entities_once() {
    let sizes = vec![fnum(4.0)];
    let mut hash = SpatialHash::new(fnum(100.0), fnum(100.0), &sizes, fnum(4.0), 1000, false);
    let occ = hash.insert(test_entity(1), vec2(0.0, 0.0), fnum(0.5));
    let mut scratch = SpatialHashScratch::new(10);
    hash.query_cell(occ.col, occ.row, None, &mut scratch);
    assert!(scratch.query_results.contains(&test_entity(1)));
    let n = scratch.query_results.len();
    hash.query_cell(occ.col, occ.row, None, &mut scratch);
    assert_eq!(scratch.query_results.len(), n);

    let mut scratch = SpatialHashScratch::new(10);
    hash.query_cell(occ.col, occ.row, Some(test_entity(1)), &mut scratch);
    assert!(!scratch.query_results.contains(&test_entity(1)));

    let mut full = SpatialHashScratch::new(0);
    hash.query_cell(occ.col, occ.row, None, &mut full);
    assert!(full.query_results.is_empty());
    assert!(full.seen_entities.contains(&test_entity(1)));
}
