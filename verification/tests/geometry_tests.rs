use peregrine::fixed::{FixedNum, FixedVec2};
use peregrine::flow_field::FlowField;
use peregrine::pathfinding::graph::HierarchicalGraph;
use peregrine::pathfinding::navigation::arrival_threshold_sq;
use peregrine::pathfinding::region_connectivity::compute_segment_overlap;
use peregrine::pathfinding::types::Rect;
use peregrine::spatial_hash::grid::StaggeredGrid;

fn fnum(v: f64) -> FixedNum {
    FixedNum::from_bits((v * 65536.0) as i64)
}

fn vec2(x: f64, y: f64) -> FixedVec2 {
    FixedVec2::new(fnum(x), fnum(y))
}

#[test]
fn test_horizontal_segment_overlap() {
    let a1 = vec2(0.0, 5.0);
    let a2 = vec2(10.0, 5.0);
    let b1 = vec2(5.0, 5.0);
    let b2 = vec2(15.0, 5.0);
    let overlap = compute_segment_overlap(a1, a2, b1, b2);
    assert!(overlap.is_some());
    let segment = overlap.unwrap();
    assert_eq!(segment.start.x, fnum(5.0));
    assert_eq!(segment.end.x, fnum(10.0));
}

#[test]
fn test_no_overlap() {
    let a1 = vec2(0.0, 5.0);
    let a2 = vec2(10.0, 5.0);
    let b1 = vec2(15.0, 5.0);
    let b2 = vec2(25.0, 5.0);
    let overlap = compute_segment_overlap(a1, a2, b1, b2);
    assert!(overlap.is_none());
}

#[test]
fn test_point_in_rectangle() {
    let rect = Rect::new(vec2(0.0, 0.0), vec2(10.0, 10.0));
    assert!(rect.contains(vec2(5.0, 5.0)));
    assert!(!rect.contains(vec2(15.0, 5.0)));
}

#[test]
fn insert_into_a_cell_not_at_the_arena_end_keeps_both_cells() {
    let mut g = StaggeredGrid::with_capacity(fnum(10.0), fnum(10.0), fnum(1.0), vec2(0.0, 0.0), 100, false);
    let (a, b, c) = (1u64 << 32 | 1, 2u64 << 32 | 1, 3u64 << 32 | 1);
    assert_ne!(g.insert_entity(0, 0, a), usize::MAX);
    assert_ne!(g.insert_entity(1, 0, b), usize::MAX);
    assert_ne!(g.insert_entity(0, 0, c), usize::MAX);
    assert_eq!(g.get_cell_entities(0, 0), vec![a, c]);
    assert_eq!(g.get_cell_entities(1, 0), vec![b]);
    assert_eq!(g.total_entries(), 3);
}

#[test]
fn reset_clears_the_portal_island_map() {
    let mut ff = FlowField::new(50, 50, fnum(1.0), vec2(0.0, 0.0));
    ff.set_obstacle(24, 10);
    let mut g = HierarchicalGraph::new(2, 2);
    g.build_graph(&ff, false);
    assert!(!g.portal_island_map.is_empty());
    g.reset();
    assert!(g.portal_island_map.is_empty());
    assert!(g.portals.is_empty());
    assert!(g.portal_connections.is_empty());
    assert_eq!(g.next_portal_id, 0);
    assert!(!g.initialized);
}

#[test]
fn unit_direction_is_normalised() {
    let mut ff = FlowField::new(3, 3, fnum(1.0), vec2(0.0, 0.0));
    ff.generate_integration_field(2, 2);
    ff.generate_vector_field();
    let d = ff.unit_direction_at(0, 0);
    assert_eq!(d, FixedVec2::new(FixedNum::from_bits(46341), FixedNum::from_bits(46341)));
    let e = ff.unit_direction_at(1, 2);
    assert_eq!(e, vec2(1.0, 0.0));
    assert_eq!(ff.unit_direction_at(2, 2), vec2(0.0, 0.0));
}

#[test]
fn arrival_threshold_is_the_larger_of_step_and_threshold() {
    let delta = fnum(0.5);
    assert_eq!(arrival_threshold_sq(fnum(5.0), delta, fnum(0.1)), fnum(6.25));
    assert_eq!(arrival_threshold_sq(fnum(0.1), delta, fnum(2.0)), fnum(4.0));
}
