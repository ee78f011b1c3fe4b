use peregrine::fixed::{FixedNum, FixedVec2};
use peregrine::flow_field::{FlowField, OBSTACLE};
use peregrine::simulation::{
    apply_obstacle_to_flow_field, apply_source_forces, constrain_to_map, friction_step, layers_interact,
    obstacle_acceleration, obstacle_push, overlapping, pair_contact, push_apart, repulsion_magnitude, search_window,
    seek, velocity_step, Collider, ForceSource, ForceType,
};
use peregrine::spatial_hash::grid::StaggeredGrid;
use peregrine::spatial_hash::SpatialHash;

fn fnum(v: f64) -> FixedNum {
    FixedNum::from_bits((v * 65536.0) as i64)
}

fn vec2(x: f64, y: f64) -> FixedVec2 {
    FixedVec2::new(fnum(x), fnum(y))
}

#[test]
fn friction_scales_velocity() {
    let v = friction_step(vec2(10.0, 0.0), fnum(0.5), fnum(1.0));
    assert_eq!(v, vec2(5.0, 0.0));
}

#[test]
fn friction_stops_slow_entities() {
    let v = friction_step(vec2(1.0, 0.0), fnum(0.5), fnum(1.0));
    assert_eq!(v, vec2(0.0, 0.0));
    let w = friction_step(vec2(0.0, -4.0), fnum(0.25), fnum(1.0));
    assert_eq!(w, vec2(0.0, -1.0));
}

#[test]
fn constrain_clamps_and_stops_at_walls() {
    let (p, v) = constrain_to_map(vec2(60.0, -10.0), vec2(3.0, -2.0), fnum(50.0), fnum(50.0));
    assert_eq!(p, vec2(50.0, -10.0));
    assert_eq!(v, vec2(0.0, -2.0));
    let (p, v) = constrain_to_map(vec2(-70.0, -80.0), vec2(-1.0, 2.0), fnum(50.0), fnum(50.0));
    assert_eq!(p, vec2(-50.0, -50.0));
    assert_eq!(v, vec2(0.0, 2.0));
}

#[test]
fn constrain_leaves_entities_inside_alone() {
    let (p, v) = constrain_to_map(vec2(10.0, 10.0), vec2(3.0, -2.0), fnum(50.0), fnum(50.0));
    assert_eq!(p, vec2(10.0, 10.0));
    assert_eq!(v, vec2(3.0, -2.0));
}

#[test]
fn layers_interact_when_a_mask_names_a_layer() {
    let a = Collider { radius: fnum(1.0), layer: 1, mask: 2 };
    let b = Collider { radius: fnum(1.0), layer: 2, mask: 0 };
    let c = Collider { radius: fnum(1.0), layer: 4, mask: 4 };
    assert!(layers_interact(&a, &b));
    assert!(layers_interact(&b, &a));
    assert!(!layers_interact(&a, &c));
}

#[test]
fn overlapping_compares_squared_distances() {
    assert!(overlapping(vec2(0.0, 0.0), vec2(1.0, 0.0), fnum(1.5)));
    assert!(!overlapping(vec2(0.0, 0.0), vec2(1.0, 0.0), fnum(1.0)));
    assert!(!overlapping(vec2(0.0, 0.0), vec2(3.0, 4.0), fnum(5.0)));
}

#[test]
fn repulsion_grows_with_overlap_and_is_capped() {
    assert_eq!(repulsion_magnitude(fnum(2.0), fnum(3.0), fnum(0.5), None), fnum(6.0));
    assert_eq!(repulsion_magnitude(fnum(2.0), fnum(3.0), fnum(0.5), Some(fnum(1.0))), fnum(4.5));
    assert_eq!(repulsion_magnitude(fnum(0.0), fnum(3.0), fnum(0.5), Some(fnum(1.0))), fnum(3.0));
}

#[test]
fn push_apart_is_equal_and_opposite() {
    let (a, b) = push_apart(vec2(0.0, 0.0), vec2(1.0, 1.0), vec2(1.0, 0.0), fnum(12.0), fnum(1.0), fnum(0.5));
    assert_eq!(a, vec2(6.0, 0.0));
    assert_eq!(b, vec2(-5.0, 1.0));
    assert_eq!(a.x.bits + b.x.bits, fnum(1.0).bits);
    assert_eq!(a.y.bits + b.y.bits, fnum(1.0).bits);
}

#[test]
fn search_window_clamps_to_grid() {
    assert_eq!(search_window(1, 1, 2, 5, 5), (0, 3, 0, 3));
    assert_eq!(search_window(4, 4, 2, 5, 5), (2, 4, 2, 4));
    assert_eq!(search_window(2, 0, 0, 5, 5), (2, 2, 0, 0));
}

fn blocked_cells(ff: &FlowField) -> Vec<(usize, usize)> {
    let mut out = Vec::new();
    for y in 0..ff.height {
        for x in 0..ff.width {
            if ff.cost_field[ff.get_index(x, y)] == OBSTACLE {
                out.push((x, y));
            }
        }
    }
    out
}

#[test]
fn obstacle_blocks_cells_whose_centre_it_covers() {
    let mut ff = FlowField::new(5, 5, fnum(1.0), vec2(0.0, 0.0));
    apply_obstacle_to_flow_field(&mut ff, vec2(2.5, 2.5), fnum(1.0));
    assert_eq!(blocked_cells(&ff), vec![(2, 2)]);

    let mut ff = FlowField::new(5, 5, fnum(1.0), vec2(0.0, 0.0));
    apply_obstacle_to_flow_field(&mut ff, vec2(2.5, 2.5), fnum(1.5));
    let mut expected = Vec::new();
    for y in 1..4 {
        for x in 1..4 {
            expected.push((x, y));
        }
    }
    assert_eq!(blocked_cells(&ff), expected);
}

#[test]
fn obstacle_partly_off_the_map_blocks_what_lies_on_it() {
    let mut ff = FlowField::new(4, 4, fnum(1.0), vec2(-2.0, -2.0));
    apply_obstacle_to_flow_field(&mut ff, vec2(-2.0, -2.0), fnum(1.0));
    assert_eq!(blocked_cells(&ff), vec![(0, 0)]);
    assert_eq!(ff.cost_field[ff.get_index(1, 1)], 1);
}

#[test]
fn grid_without_headroom_needs_rebuild() {
    let g = StaggeredGrid::with_capacity(fnum(10.0), fnum(10.0), fnum(2.0), vec2(0.0, 0.0), 100, false);
    assert!(g.should_rebuild());
}

#[test]
fn grid_needs_rebuild_once_a_cell_is_full() {
    let mut g = StaggeredGrid::with_capacity(fnum(10.0), fnum(10.0), fnum(2.0), vec2(0.0, 0.0), 100, true);
    let cells = g.num_cols() * g.num_rows();
    assert_eq!(cells, 49);
    g.rebuild_with_headroom(&vec![]);
    assert!(!g.should_rebuild());
    assert_ne!(g.insert_entity(1, 1, 7 << 32 | 1), usize::MAX);
    assert!(!g.should_rebuild());
    assert_ne!(g.insert_entity(1, 1, 8 << 32 | 1), usize::MAX);
    assert!(g.should_rebuild());
}

#[test]
fn non_empty_cells_counts_over_all_grids() {
    let sizes = vec![fnum(4.0)];
    let mut hash = SpatialHash::new(fnum(100.0), fnum(100.0), &sizes, fnum(4.0), 1000, false);
    assert_eq!(hash.non_empty_cells(), 0);
    hash.insert(5 << 32 | 1, vec2(-40.0, -40.0), fnum(1.0));
    hash.insert(6 << 32 | 1, vec2(40.0, 40.0), fnum(1.0));
    hash.insert(7 << 32 | 1, vec2(40.0, 40.0), fnum(1.0));
    assert_eq!(hash.non_empty_cells(), 2);
    assert_eq!(hash.total_entries(), 3);
    assert!(hash.should_rebuild());
}

#[test]
fn pair_contact_reports_overlap_and_normal() {
    let c = Collider { radius: fnum(1.0), layer: 1, mask: 1 };
    let eps = FixedNum::from_bits(6);
    let r = pair_contact(1, 2, vec2(0.0, 0.0), vec2(1.0, 0.0), &c, &c, eps);
    assert_eq!(r, Some((fnum(1.0), Some(vec2(-1.0, 0.0)))));
    assert_eq!(pair_contact(2, 1, vec2(0.0, 0.0), vec2(1.0, 0.0), &c, &c, eps), None);
    assert_eq!(pair_contact(1, 2, vec2(0.0, 0.0), vec2(3.0, 0.0), &c, &c, eps), None);
}

#[test]
fn pair_contact_on_one_point_has_no_normal() {
    let c = Collider { radius: fnum(1.0), layer: 1, mask: 1 };
    let r = pair_contact(1, 2, vec2(4.0, 4.0), vec2(4.0, 4.0), &c, &c, FixedNum::from_bits(6));
    assert_eq!(r, Some((fnum(2.0), None)));
}

#[test]
fn pair_contact_skips_layers_that_ignore_each_other() {
    let a = Collider { radius: fnum(1.0), layer: 1, mask: 1 };
    let b = Collider { radius: fnum(1.0), layer: 2, mask: 2 };
    assert_eq!(pair_contact(1, 2, vec2(0.0, 0.0), vec2(0.5, 0.0), &a, &b, FixedNum::from_bits(6)), None);
}

#[test]
fn obstacle_push_scales_with_overlap() {
    let eps = FixedNum::from_bits(6);
    let p = obstacle_push(vec2(0.0, 0.0), vec2(0.5, 0.0), fnum(1.0), eps, fnum(1.0), fnum(0.0));
    assert_eq!(p, Some(vec2(-1.0, 0.0)));
    let p = obstacle_push(vec2(0.0, 0.0), vec2(0.5, 0.0), fnum(1.0), eps, fnum(1.0), fnum(2.0));
    assert_eq!(p, Some(vec2(-2.0, 0.0)));
    assert_eq!(obstacle_push(vec2(0.0, 0.0), vec2(2.0, 0.0), fnum(1.0), eps, fnum(1.0), fnum(2.0)), None);
    assert_eq!(obstacle_push(vec2(0.0, 0.0), vec2(0.0, 0.0), fnum(1.0), eps, fnum(1.0), fnum(2.0)), None);
}

#[test]
fn obstacle_acceleration_sums_cells_and_free_obstacles() {
    let mut ff = FlowField::new(3, 3, fnum(1.0), vec2(-1.5, -1.5));
    ff.set_obstacle(1, 1);
    let free = vec![(vec2(0.5, 1.0), fnum(0.5)), (vec2(0.5, -0.5), fnum(0.5))];
    let a = obstacle_acceleration(
        vec2(0.0, 0.0),
        vec2(0.5, 0.0),
        fnum(0.5),
        &ff,
        1,
        &free,
        FixedNum::from_bits(6),
        fnum(1.0),
        fnum(0.0),
    );
    assert_eq!(a, vec2(1.0, 1.0));
}

#[test]
fn velocity_step_integrates_and_clamps() {
    let (p, v, a) =
        velocity_step(vec2(0.0, 0.0), vec2(1.0, 0.0), vec2(0.0, 2.0), fnum(0.5), fnum(10.0), fnum(100.0), fnum(50.0), fnum(50.0));
    assert_eq!((p, v, a), (vec2(0.5, 0.5), vec2(1.0, 1.0), vec2(0.0, 0.0)));
    let (p, v, a) =
        velocity_step(vec2(0.0, 0.0), vec2(0.0, 0.0), vec2(300.0, 0.0), fnum(0.5), fnum(10.0), fnum(100.0), fnum(50.0), fnum(50.0));
    assert_eq!((p, v, a), (vec2(5.0, 0.0), vec2(10.0, 0.0), vec2(0.0, 0.0)));
}

#[test]
fn velocity_step_stops_at_the_wall() {
    let (p, v, _) =
        velocity_step(vec2(49.0, 0.0), vec2(4.0, 1.0), vec2(0.0, 0.0), fnum(0.5), fnum(10.0), fnum(100.0), fnum(50.0), fnum(50.0));
    assert_eq!(p, vec2(50.0, 0.5));
    assert_eq!(v, vec2(0.0, 1.0));
}

#[test]
fn seek_steers_toward_target_within_max_force() {
    let mut acc = vec2(0.0, 0.0);
    seek(vec2(0.0, 0.0), vec2(10.0, 0.0), vec2(0.0, 0.0), &mut acc, fnum(5.0), fnum(20.0));
    assert_eq!(acc, vec2(5.0, 0.0));
    let mut acc = vec2(1.0, 1.0);
    seek(vec2(0.0, 0.0), vec2(10.0, 0.0), vec2(0.0, 0.0), &mut acc, fnum(5.0), fnum(2.0));
    assert_eq!(acc, vec2(3.0, 1.0));
    let mut acc = vec2(1.0, 1.0);
    seek(vec2(3.0, 3.0), vec2(3.0, 3.0), vec2(0.0, 0.0), &mut acc, fnum(5.0), fnum(2.0));
    assert_eq!(acc, vec2(1.0, 1.0));
}

#[test]
fn sources_pull_and_push_within_their_radius() {
    let sources = vec![
        (vec2(4.0, 0.0), ForceSource { force_type: ForceType::Radial(fnum(3.0)), radius: fnum(0.0) }),
        (vec2(100.0, 100.0), ForceSource { force_type: ForceType::Directional(vec2(0.0, 1.0)), radius: fnum(5.0) }),
        (vec2(0.0, 0.0), ForceSource { force_type: ForceType::Directional(vec2(0.0, -1.0)), radius: fnum(0.0) }),
    ];
    let a = apply_source_forces(vec2(1.0, 1.0), vec2(0.0, 0.0), &sources);
    assert_eq!(a, vec2(4.0, 0.0));
}
