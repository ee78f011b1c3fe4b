use peregrine::boids::{apply_steering, boids_force, BoidsParams, Neighbor};
use peregrine::fixed::{FixedNum, FixedVec2};
use peregrine::spatial_hash::query::SpatialHashScratch;
use peregrine::spatial_hash::SpatialHash;

fn fnum(v: f64) -> FixedNum {
    FixedNum::from_bits((v * 65536.0) as i64)
}

fn vec2(x: f64, y: f64) -> FixedVec2 {
    FixedVec2::new(fnum(x), fnum(y))
}

fn entity(id: u64) -> u64 {
    id << 32 | 1
}

/// The default flocking tuning: all weights one, neighbours within 5,
/// separation within 1.5, speed 5.
fn default_params() -> BoidsParams {
    BoidsParams {
        separation_weight: fnum(1.0),
        alignment_weight: fnum(1.0),
        cohesion_weight: fnum(1.0),
        neighbor_radius: fnum(5.0),
        separation_radius: fnum(1.5),
        max_speed: fnum(5.0),
    }
}

/// One tick at 30 ticks per second.
fn tick() -> FixedNum {
    fnum(1.0 / 30.0)
}

/// Units as `(entity, position, velocity)`; runs one steering tick for
/// every unit, its neighbours found by a spatial hash query of the
/// neighbour radius, and returns the new velocities.
fn run_boids(units: &[(u64, FixedVec2, FixedVec2)], p: &BoidsParams) -> Vec<FixedVec2> {
    let sizes = vec![fnum(10.0)];
    let mut hash = SpatialHash::new(fnum(100.0), fnum(100.0), &sizes, fnum(4.0), 1000, false);
    for &(e, pos, _) in units {
        hash.insert(e, pos, fnum(0.5));
    }
    let mut scratch = SpatialHashScratch::new(1000);
    let mut out = Vec::new();
    for &(e, pos, vel) in units {
        hash.query_radius(pos, p.neighbor_radius, Some(e), &mut scratch);
        let neighbors: Vec<Neighbor> = scratch
            .query_results
            .iter()
            .map(|&o| {
                let &(_, op, ov) = units.iter().find(|u| u.0 == o).unwrap();
                (o, op, ov)
            })
            .collect();
        let v = match boids_force(e, pos, vel, &neighbors, p) {
            Some(force) => apply_steering(vel, force, tick(), p.max_speed),
            None => vel,
        };
        out.push(v);
    }
    out
}

#[test]
fn test_boids_uses_spatial_query() {
    let mut p = default_params();
    p.neighbor_radius = fnum(10.0);
    p.separation_radius = fnum(5.0);
    let units = [(entity(1), vec2(0.0, 0.0), vec2(0.0, 0.0)), (entity(2), vec2(3.0, 0.0), vec2(1.0, 0.0))];
    let vel = run_boids(&units, &p);
    assert!(vel[0].length_squared().bits >= 0, "Boids system should run without panicking");
}

#[test]
fn test_boids_excludes_self_from_neighbors() {
    let mut p = default_params();
    p.neighbor_radius = fnum(10.0);
    p.separation_radius = fnum(5.0);
    let units = [(entity(1), vec2(0.0, 0.0), vec2(0.0, 0.0))];
    let vel = run_boids(&units, &p);
    assert_eq!(vel[0], vec2(0.0, 0.0), "Single unit should not be influenced by itself");
    let me: Vec<Neighbor> = vec![(entity(1), vec2(0.0, 0.0), vec2(0.0, 0.0))];
    assert_eq!(boids_force(entity(1), vec2(0.0, 0.0), vec2(0.0, 0.0), &me, &p), None);
}

#[test]
fn test_boids_separation_force() {
    let mut p = default_params();
    p.neighbor_radius = fnum(10.0);
    p.separation_radius = fnum(5.0);
    p.alignment_weight = fnum(0.0);
    p.cohesion_weight = fnum(0.0);
    let units = [(entity(1), vec2(0.0, 0.0), vec2(0.0, 0.0)), (entity(2), vec2(1.0, 0.0), vec2(0.0, 0.0))];
    let vel = run_boids(&units, &p);
    assert!(vel[0].x.bits < 0, "Entity A should move away from B (negative X), got {:?}", vel[0]);
}

#[test]
fn test_boids_alignment_with_neighbors() {
    let mut p = default_params();
    p.neighbor_radius = fnum(10.0);
    p.separation_radius = fnum(2.0);
    p.separation_weight = fnum(0.0);
    p.cohesion_weight = fnum(0.0);
    let units = [(entity(1), vec2(0.0, 0.0), vec2(0.0, 0.0)), (entity(2), vec2(5.0, 0.0), vec2(3.0, 0.0))];
    let vel = run_boids(&units, &p);
    assert!(vel[0].x.bits > 0, "Entity A should align with B's velocity (+X), got {:?}", vel[0]);
}

#[test]
fn test_boids_cohesion_toward_center() {
    let mut p = default_params();
    p.neighbor_radius = fnum(20.0);
    p.separation_radius = fnum(2.0);
    p.separation_weight = fnum(0.0);
    p.alignment_weight = fnum(0.0);
    let units = [
        (entity(1), vec2(0.0, 0.0), vec2(0.0, 0.0)),
        (entity(2), vec2(8.0, 0.0), vec2(0.0, 0.0)),
        (entity(3), vec2(12.0, 0.0), vec2(0.0, 0.0)),
    ];
    let vel = run_boids(&units, &p);
    assert!(vel[0].x.bits > 0, "Entity A should move toward center of mass (+X), got {:?}", vel[0]);
}

#[test]
fn test_boids_respects_neighbor_radius() {
    let mut p = default_params();
    p.neighbor_radius = fnum(5.0);
    p.separation_radius = fnum(3.0);
    let units = [
        (entity(1), vec2(0.0, 0.0), vec2(0.0, 0.0)),
        (entity(2), vec2(3.0, 0.0), vec2(2.0, 0.0)),
        (entity(3), vec2(20.0, 0.0), vec2(10.0, 0.0)),
    ];
    let vel = run_boids(&units, &p);
    assert!(
        vel[0].length().bits < fnum(10.0).bits,
        "Entity A should only be influenced by nearby units, got {:?}",
        vel[0]
    );
}

#[test]
fn separation_force_has_full_speed_away_from_neighbour() {
    let mut p = default_params();
    p.neighbor_radius = fnum(10.0);
    p.separation_radius = fnum(5.0);
    p.alignment_weight = fnum(0.0);
    p.cohesion_weight = fnum(0.0);
    let nb: Vec<Neighbor> = vec![(entity(2), vec2(1.0, 0.0), vec2(0.0, 0.0))];
    let force = boids_force(entity(1), vec2(0.0, 0.0), vec2(0.0, 0.0), &nb, &p);
    assert_eq!(force, Some(vec2(-5.0, 0.0)));
    let v = apply_steering(vec2(0.0, 0.0), vec2(-5.0, 0.0), tick(), p.max_speed);
    assert_eq!(v, FixedVec2::new(FixedNum::from_bits(-10920), FixedNum::zero()));
}

#[test]
fn alignment_force_steers_to_neighbour_heading() {
    let mut p = default_params();
    p.neighbor_radius = fnum(10.0);
    p.separation_radius = fnum(2.0);
    p.separation_weight = fnum(0.0);
    p.cohesion_weight = fnum(0.0);
    let nb: Vec<Neighbor> = vec![(entity(2), vec2(5.0, 0.0), vec2(3.0, 0.0))];
    let force = boids_force(entity(1), vec2(0.0, 0.0), vec2(0.0, 0.0), &nb, &p);
    assert_eq!(force, Some(vec2(5.0, 0.0)));
}

#[test]
fn all_weights_zero_gives_no_force() {
    let mut p = default_params();
    p.separation_weight = fnum(0.0);
    p.alignment_weight = fnum(0.0);
    p.cohesion_weight = fnum(0.0);
    let nb: Vec<Neighbor> = vec![(entity(2), vec2(1.0, 0.0), vec2(3.0, 0.0))];
    assert_eq!(boids_force(entity(1), vec2(0.0, 0.0), vec2(0.0, 0.0), &nb, &p), None);
}

#[test]
fn far_neighbour_changes_nothing() {
    let p = default_params();
    let near: Vec<Neighbor> = vec![(entity(2), vec2(3.0, 0.0), vec2(2.0, 0.0))];
    let mut both = near.clone();
    both.push((entity(3), vec2(20.0, 0.0), vec2(10.0, 0.0)));
    let a = boids_force(entity(1), vec2(0.0, 0.0), vec2(0.0, 0.0), &near, &p);
    let b = boids_force(entity(1), vec2(0.0, 0.0), vec2(0.0, 0.0), &both, &p);
    assert!(a.is_some());
    assert_eq!(a, b);
}

#[test]
fn steering_is_capped_at_max_speed() {
    let v = apply_steering(vec2(4.0, 0.0), vec2(300.0, 0.0), tick(), fnum(5.0));
    assert_eq!(v, vec2(5.0, 0.0));
}
