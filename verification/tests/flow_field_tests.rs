use peregrine::fixed::{FixedNum, FixedVec2};
use peregrine::flow_field::{FlowField, OBSTACLE, UNREACHED};

fn unit_field(w: usize, h: usize) -> FlowField {
    FlowField::new(w, h, FixedNum::from_bits(65536), FixedVec2::new(FixedNum::zero(), FixedNum::zero()))
}

#[test]
fn integration_field_counts_steps_on_open_grid() {
    let mut ff = unit_field(5, 4);
    ff.generate_integration_field(0, 0);
    assert_eq!(ff.integration_field[ff.get_index(0, 0)], 0);
    assert_eq!(ff.integration_field[ff.get_index(4, 3)], 7);
    assert_eq!(ff.integration_field[ff.get_index(2, 1)], 3);
}

#[test]
fn integration_field_goes_around_walls() {
    let mut ff = unit_field(3, 3);
    ff.set_obstacle(1, 0);
    ff.set_obstacle(1, 1);
    ff.generate_integration_field(0, 0);
    assert_eq!(ff.integration_field[ff.get_index(2, 0)], 6);
    assert_eq!(ff.integration_field[ff.get_index(1, 0)], UNREACHED);
    assert_eq!(ff.cost_field[ff.get_index(1, 0)], OBSTACLE);
}

#[test]
fn walled_off_cells_stay_unreached() {
    let mut ff = unit_field(3, 1);
    ff.set_obstacle(1, 0);
    ff.generate_integration_field(0, 0);
    assert_eq!(ff.integration_field[ff.get_index(2, 0)], UNREACHED);
}

#[test]
fn vector_field_points_downhill() {
    let mut ff = unit_field(3, 3);
    ff.generate_integration_field(1, 1);
    ff.generate_vector_field();
    assert_eq!(ff.vector_field[ff.get_index(1, 1)], (0, 0));
    assert_eq!(ff.vector_field[ff.get_index(0, 1)], (1, 0));
    assert_eq!(ff.vector_field[ff.get_index(1, 2)], (0, -1));
    // Corner: the diagonal toward the target is the cheapest neighbour.
    assert_eq!(ff.vector_field[ff.get_index(0, 0)], (1, 1));
}

#[test]
fn world_and_grid_round_trip() {
    let ff = unit_field(10, 10);
    let c = ff.grid_to_world(3, 4);
    assert_eq!(c.x.bits, 3 * 65536 + 32768);
    assert_eq!(c.y.bits, 4 * 65536 + 32768);
    assert_eq!(ff.world_to_grid(c), Some((3, 4)));
    let outside = FixedVec2::new(FixedNum::from_bits(-1), FixedNum::zero());
    assert_eq!(ff.world_to_grid(outside), None);
}
