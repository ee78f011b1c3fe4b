//! Deterministic per-entity steps of the simulation: friction, map bounds,
//! collision filtering and repulsion.
use vstd::prelude::*;
use crate::fixed::{
    FixedNum,
    FixedVec2,
    ONE_BITS,
    COORD_LIMIT,
    fixed_mul_spec,
    fixed_div_spec,
    length_squared_spec,
    floor_div_fixed,
    lemma_mul_within,
    is_sqrt_bits,
    sqrt_bits,
    sqrt_fixed_bits,
    lemma_component_within_length,
    lemma_quotient_within,
    normalize_spec,
};
use crate::flow_field::{FlowField, OBSTACLE, at8, in_grid, idx, lemma_at8_update, lemma_idx_bounds};

verus! {

/// Largest magnitude, in bits, of the quantities these steps multiply.
pub const PHYS_LIMIT: i64 = 0x10_0000_0000;

/// Largest overlap, in bits, that unit-unit repulsion takes into account (10.0).
pub const MAX_OVERLAP_BITS: i64 = 655360;

/// Collision shape and filtering of an entity.
#[derive(Debug, Clone, Copy, PartialEq, Eq, Structural)]
pub struct Collider {
    pub radius: FixedNum,
    pub layer: u32,
    pub mask: u32,
}

/// Every component of `v` and the number `s` lie within `PHYS_LIMIT`.
pub open spec fn phys_ok(v: FixedVec2) -> bool {
    -PHYS_LIMIT <= v.x.bits <= PHYS_LIMIT && -PHYS_LIMIT <= v.y.bits <= PHYS_LIMIT
}

/// A number within `PHYS_LIMIT`.
pub open spec fn num_ok(n: FixedNum) -> bool {
    -PHYS_LIMIT <= n.bits <= PHYS_LIMIT
}

/// `v` scaled by `s`, each product rounded down.
pub open spec fn scaled(v: FixedVec2, s: FixedNum) -> FixedVec2 {
    FixedVec2 {
        x: FixedNum { bits: fixed_mul_spec(v.x.bits as int, s.bits as int) as i64 },
        y: FixedNum { bits: fixed_mul_spec(v.y.bits as int, s.bits as int) as i64 },
    }
}

proof fn lemma_small_product(a: int, b: int)
    requires
        -PHYS_LIMIT <= a <= PHYS_LIMIT,
        -PHYS_LIMIT <= b <= PHYS_LIMIT,
    ensures
        -0x100_0000_0000_0000 <= fixed_mul_spec(a, b) <= 0x100_0000_0000_0000,
{
    assert(-0x100_0000_0000_0000_0000 <= a * b <= 0x100_0000_0000_0000_0000) by (nonlinear_arith)
        requires
            -0x10_0000_0000 <= a <= 0x10_0000_0000,
            -0x10_0000_0000 <= b <= 0x10_0000_0000,
    ;
    vstd::arithmetic::div_mod::lemma_div_is_ordered(-0x100_0000_0000_0000_0000, a * b, 65536);
    vstd::arithmetic::div_mod::lemma_div_is_ordered(a * b, 0x100_0000_0000_0000_0000, 65536);
    assert(-0x100_0000_0000_0000_0000int / 65536 == -0x100_0000_0000_0000int);
    assert(0x100_0000_0000_0000_0000int / 65536 == 0x100_0000_0000_0000int);
}

/// `v` scaled by `s`.
pub fn scale(v: FixedVec2, s: FixedNum) -> (r: FixedVec2)
    requires
        phys_ok(v),
        num_ok(s),
    ensures
        r == scaled(v, s),
{
    proof {
        lemma_small_product(v.x.bits as int, s.bits as int);
        lemma_small_product(v.y.bits as int, s.bits as int);
    }
    FixedVec2::new(v.x.mul(s), v.y.mul(s))
}

/// Velocity after one tick of friction: scaled by `friction`, and zero once
/// its squared length falls below that of `min_velocity`.
pub fn friction_step(vel: FixedVec2, friction: FixedNum, min_velocity: FixedNum) -> (r: FixedVec2)
    requires
        phys_ok(vel),
        num_ok(friction),
        num_ok(min_velocity),
        0 <= friction.bits <= ONE_BITS,
    ensures
        ({
            let v = scaled(vel, friction);
            r == if length_squared_spec(v.x.bits as int, v.y.bits as int) < fixed_mul_spec(min_velocity.bits as int, min_velocity.bits as int) {
                FixedVec2 { x: FixedNum { bits: 0 }, y: FixedNum { bits: 0 } }
            } else {
                v
            }
        }),
{
    let v = scale(vel, friction);
    proof {
        lemma_small_product(min_velocity.bits as int, min_velocity.bits as int);
        lemma_friction_shrinks(vel.x.bits as int, friction.bits as int);
        lemma_friction_shrinks(vel.y.bits as int, friction.bits as int);
    }
    let min_sq = min_velocity.mul(min_velocity);
    if v.length_squared().lt(min_sq) {
        FixedVec2::new(FixedNum::zero(), FixedNum::zero())
    } else {
        v
    }
}

proof fn lemma_friction_shrinks(a: int, f: int)
    requires
        -PHYS_LIMIT <= a <= PHYS_LIMIT,
        0 <= f <= 65536,
    ensures
        -PHYS_LIMIT - 1 <= fixed_mul_spec(a, f) <= PHYS_LIMIT,
{
    assert(-PHYS_LIMIT * 65536 <= a * f <= PHYS_LIMIT * 65536) by (nonlinear_arith)
        requires
            -0x10_0000_0000 <= a <= 0x10_0000_0000,
            0 <= f <= 65536,
    ;
    vstd::arithmetic::div_mod::lemma_div_is_ordered(-PHYS_LIMIT * 65536, a * f, 65536);
    vstd::arithmetic::div_mod::lemma_div_is_ordered(a * f, PHYS_LIMIT * 65536, 65536);
}

/// Position clamped to the map `[-half_w, half_w] x [-half_h, half_h]`, and
/// velocity with each component that pushes out through a wall zeroed
/// where the position lay outside the map.
pub open spec fn constrain_spec(pos: FixedVec2, vel: FixedVec2, half_w: FixedNum, half_h: FixedNum) -> (FixedVec2, FixedVec2) {
    let was_out = pos.x.bits < -half_w.bits || pos.x.bits > half_w.bits || pos.y.bits < -half_h.bits || pos.y.bits > half_h.bits;
    let px = if pos.x.bits < -half_w.bits { -half_w.bits } else if pos.x.bits > half_w.bits { half_w.bits as int } else { pos.x.bits as int };
    let py = if pos.y.bits < -half_h.bits { -half_h.bits } else if pos.y.bits > half_h.bits { half_h.bits as int } else { pos.y.bits as int };
    let vx = if was_out && ((px <= -half_w.bits && vel.x.bits < 0) || (px >= half_w.bits && vel.x.bits > 0)) { 0 } else { vel.x.bits as int };
    let vy = if was_out && ((py <= -half_h.bits && vel.y.bits < 0) || (py >= half_h.bits && vel.y.bits > 0)) { 0 } else { vel.y.bits as int };
    (
        FixedVec2 { x: FixedNum { bits: px as i64 }, y: FixedNum { bits: py as i64 } },
        FixedVec2 { x: FixedNum { bits: vx as i64 }, y: FixedNum { bits: vy as i64 } },
    )
}

/// What keeping an entity on the map does, over all inputs: the position
/// ends on the map, unchanged where it already lay there (and the velocity
/// too); each velocity component is kept or zeroed; and once the entity
/// had left the map, no velocity component points out through a wall the
/// returned position lies on.
pub open spec fn constrain_law(pos: FixedVec2, vel: FixedVec2, half_w: FixedNum, half_h: FixedNum, r: (FixedVec2, FixedVec2)) -> bool {
    let (p, v) = r;
    let inside = -half_w.bits <= pos.x.bits <= half_w.bits && -half_h.bits <= pos.y.bits <= half_h.bits;
    &&& -half_w.bits <= p.x.bits <= half_w.bits
    &&& -half_h.bits <= p.y.bits <= half_h.bits
    &&& (-half_w.bits <= pos.x.bits <= half_w.bits ==> p.x == pos.x)
    &&& (-half_h.bits <= pos.y.bits <= half_h.bits ==> p.y == pos.y)
    &&& (pos.x.bits > half_w.bits ==> p.x.bits == half_w.bits)
    &&& (pos.x.bits < -half_w.bits ==> p.x.bits == -half_w.bits)
    &&& (pos.y.bits > half_h.bits ==> p.y.bits == half_h.bits)
    &&& (pos.y.bits < -half_h.bits ==> p.y.bits == -half_h.bits)
    &&& (inside ==> v == vel)
    &&& (v.x == vel.x || v.x.bits == 0)
    &&& (v.y == vel.y || v.y.bits == 0)
    &&& (!inside ==> {
        &&& (p.x.bits >= half_w.bits ==> v.x.bits <= 0)
        &&& (p.x.bits <= -half_w.bits ==> v.x.bits >= 0)
        &&& (p.y.bits >= half_h.bits ==> v.y.bits <= 0)
        &&& (p.y.bits <= -half_h.bits ==> v.y.bits >= 0)
        &&& (v.x.bits == 0 && vel.x.bits != 0 ==> (p.x.bits >= half_w.bits && vel.x.bits > 0) || (p.x.bits <= -half_w.bits
            && vel.x.bits < 0))
        &&& (v.y.bits == 0 && vel.y.bits != 0 ==> (p.y.bits >= half_h.bits && vel.y.bits > 0) || (p.y.bits <= -half_h.bits
            && vel.y.bits < 0))
    })
}

/// Keeping an entity on the map obeys `constrain_law` for every input.
pub proof fn law_constrain_to_map(pos: FixedVec2, vel: FixedVec2, half_w: FixedNum, half_h: FixedNum)
    requires
        0 <= half_w.bits <= PHYS_LIMIT,
        0 <= half_h.bits <= PHYS_LIMIT,
    ensures
        constrain_law(pos, vel, half_w, half_h, constrain_spec(pos, vel, half_w, half_h)),
{
}

/// Keeps an entity on the map after it moved, as `constrain_spec` says (see
/// `constrain_law`).
pub fn constrain_to_map(pos: FixedVec2, vel: FixedVec2, half_w: FixedNum, half_h: FixedNum) -> (r: (FixedVec2, FixedVec2))
    requires
        0 <= half_w.bits <= PHYS_LIMIT,
        0 <= half_h.bits <= PHYS_LIMIT,
    ensures
        r == constrain_spec(pos, vel, half_w, half_h),
        constrain_law(pos, vel, half_w, half_h, r),
{
    let was_out = pos.x.bits < -half_w.bits || pos.x.bits > half_w.bits || pos.y.bits < -half_h.bits || pos.y.bits > half_h.bits;
    let mut p = pos;
    if p.x.bits < -half_w.bits {
        p.x = FixedNum::from_bits(-half_w.bits);
    }
    if p.x.bits > half_w.bits {
        p.x = half_w;
    }
    if p.y.bits < -half_h.bits {
        p.y = FixedNum::from_bits(-half_h.bits);
    }
    if p.y.bits > half_h.bits {
        p.y = half_h;
    }
    let mut v = vel;
    if was_out {
        if p.x.bits <= -half_w.bits && v.x.bits < 0 {
            v.x = FixedNum::zero();
        }
        if p.x.bits >= half_w.bits && v.x.bits > 0 {
            v.x = FixedNum::zero();
        }
        if p.y.bits <= -half_h.bits && v.y.bits < 0 {
            v.y = FixedNum::zero();
        }
        if p.y.bits >= half_h.bits && v.y.bits > 0 {
            v.y = FixedNum::zero();
        }
    }
    (p, v)
}

/// Whether two colliders can collide: either one's mask names the other's
/// layer.
pub fn layers_interact(a: &Collider, b: &Collider) -> (r: bool)
    ensures
        r == ((a.mask & b.layer) != 0 || (b.mask & a.layer) != 0),
{
    (a.mask & b.layer) != 0 || (b.mask & a.layer) != 0
}

/// Whether two entities at `pos_a` and `pos_b` are closer than `min_dist`:
/// the squared distance against the squared minimum, each rounded down.
pub fn overlapping(pos_a: FixedVec2, pos_b: FixedVec2, min_dist: FixedNum) -> (r: bool)
    requires
        pos_a.in_range(),
        pos_b.in_range(),
        num_ok(min_dist),
    ensures
        r == (length_squared_spec(pos_a.x.bits - pos_b.x.bits, pos_a.y.bits - pos_b.y.bits) < fixed_mul_spec(
            min_dist.bits as int,
            min_dist.bits as int,
        )),
{
    proof {
        lemma_small_product(min_dist.bits as int, min_dist.bits as int);
    }
    let min_sq = min_dist.mul(min_dist);
    pos_a.sub(pos_b).length_squared().lt(min_sq)
}

/// Strength of the push between two overlapping entities:
/// `repulsion * (1 + overlap * decay)`, the overlap capped at `cap` where
/// one is given.
pub open spec fn repulsion_spec(overlap: FixedNum, repulsion: FixedNum, decay: FixedNum, cap: Option<FixedNum>) -> int {
    let o = match cap {
        Some(c) => if overlap.bits < c.bits { overlap.bits as int } else { c.bits as int },
        None => overlap.bits as int,
    };
    fixed_mul_spec(repulsion.bits as int, ONE_BITS + fixed_mul_spec(o, decay.bits as int))
}

/// The push strength, as `repulsion_spec` says.
pub fn repulsion_magnitude(overlap: FixedNum, repulsion: FixedNum, decay: FixedNum, cap: Option<FixedNum>) -> (r: FixedNum)
    requires
        num_ok(overlap),
        num_ok(repulsion),
        0 <= decay.bits <= 0x10_0000,
        cap matches Some(c) ==> -0x10_0000 <= c.bits <= 0x10_0000,
        -0x10_0000 <= overlap.bits <= 0x10_0000,
    ensures
        r.bits == repulsion_spec(overlap, repulsion, decay, cap),
        -0x2000_0000_0000 <= r.bits <= 0x2000_0000_0000,
{
    let o = match cap {
        Some(c) => if overlap.bits < c.bits { overlap } else { c },
        None => overlap,
    };
    proof {
        assert(-0x100_0000 <= fixed_mul_spec(o.bits as int, decay.bits as int) <= 0x100_0000) by {
            assert(-0x100_0000_0000 <= (o.bits as int) * (decay.bits as int) <= 0x100_0000_0000) by (nonlinear_arith)
                requires
                    -0x10_0000 <= o.bits <= 0x10_0000,
                    0 <= decay.bits <= 0x10_0000,
            ;
            vstd::arithmetic::div_mod::lemma_div_is_ordered(-0x100_0000_0000, (o.bits as int) * (decay.bits as int), 65536);
            vstd::arithmetic::div_mod::lemma_div_is_ordered((o.bits as int) * (decay.bits as int), 0x100_0000_0000, 65536);
        }
    }
    let scaled_overlap = o.mul(decay);
    let factor = FixedNum::from_bits(ONE_BITS + scaled_overlap.bits);
    proof {
        assert(-0x2000_0000_0000_0000 <= (repulsion.bits as int) * (factor.bits as int) <= 0x2000_0000_0000_0000) by (nonlinear_arith)
            requires
                -0x10_0000_0000 <= repulsion.bits <= 0x10_0000_0000,
                -0x200_0000 <= factor.bits <= 0x200_0000,
        ;
        lemma_mul_within(repulsion.bits as int, factor.bits as int, 0x2000_0000_0000_0000);
    }
    repulsion.mul(factor)
}

/// Columns and rows, inclusive, within `range` cells of `(cx, cy)` on a
/// `width` by `height` grid.
pub fn search_window(cx: usize, cy: usize, range: usize, width: usize, height: usize) -> (r: (usize, usize, usize, usize))
    requires
        cx < width,
        cy < height,
        cx + range <= usize::MAX,
        cy + range <= usize::MAX,
    ensures
        r.0 == if cx >= range { cx - range } else { 0 },
        r.1 == if cx + range < width { cx + range } else { width - 1 },
        r.2 == if cy >= range { cy - range } else { 0 },
        r.3 == if cy + range < height { cy + range } else { height - 1 },
{
    let min_x = if cx >= range { cx - range } else { 0 };
    let max_x = if cx + range < width { cx + range } else { width - 1 };
    let min_y = if cy >= range { cy - range } else { 0 };
    let max_y = if cy + range < height { cy + range } else { height - 1 };
    (min_x, max_x, min_y, max_y)
}


/// Accelerations of two colliding entities after the push between them:
/// `normal` scaled by the push strength, the overlap capped at
/// `MAX_OVERLAP_BITS`, is added to the first and taken from the second.
pub open spec fn push_apart_spec(
    acc1: FixedVec2,
    acc2: FixedVec2,
    normal: FixedVec2,
    overlap: FixedNum,
    repulsion: FixedNum,
    decay: FixedNum,
) -> (FixedVec2, FixedVec2) {
    let m = repulsion_spec(overlap, repulsion, decay, Some(FixedNum { bits: MAX_OVERLAP_BITS }));
    let fx = fixed_mul_spec(normal.x.bits as int, m);
    let fy = fixed_mul_spec(normal.y.bits as int, m);
    (
        FixedVec2 { x: FixedNum { bits: (acc1.x.bits + fx) as i64 }, y: FixedNum { bits: (acc1.y.bits + fy) as i64 } },
        FixedVec2 { x: FixedNum { bits: (acc2.x.bits - fx) as i64 }, y: FixedNum { bits: (acc2.y.bits - fy) as i64 } },
    )
}

/// Applies the push between two colliding entities, as `push_apart_spec` says.
pub fn push_apart(
    acc1: FixedVec2,
    acc2: FixedVec2,
    normal: FixedVec2,
    overlap: FixedNum,
    repulsion: FixedNum,
    decay: FixedNum,
) -> (r: (FixedVec2, FixedVec2))
    requires
        phys_ok(acc1),
        phys_ok(acc2),
        -ONE_BITS <= normal.x.bits <= ONE_BITS,
        -ONE_BITS <= normal.y.bits <= ONE_BITS,
        -0x10_0000 <= overlap.bits <= 0x10_0000,
        num_ok(repulsion),
        0 <= decay.bits <= 0x10_0000,
    ensures
        r == push_apart_spec(acc1, acc2, normal, overlap, repulsion, decay),
        r.0.x.bits + r.1.x.bits == acc1.x.bits + acc2.x.bits,
        r.0.y.bits + r.1.y.bits == acc1.y.bits + acc2.y.bits,
{
    let mag = repulsion_magnitude(overlap, repulsion, decay, Some(FixedNum::from_bits(MAX_OVERLAP_BITS)));
    proof {
        assert(-0x2000_0000_0000_0000 <= (normal.x.bits as int) * (mag.bits as int) <= 0x2000_0000_0000_0000) by (nonlinear_arith)
            requires
                -0x1_0000 <= normal.x.bits <= 0x1_0000,
                -0x2000_0000_0000 <= mag.bits <= 0x2000_0000_0000,
        ;
        assert(-0x2000_0000_0000_0000 <= (normal.y.bits as int) * (mag.bits as int) <= 0x2000_0000_0000_0000) by (nonlinear_arith)
            requires
                -0x1_0000 <= normal.y.bits <= 0x1_0000,
                -0x2000_0000_0000 <= mag.bits <= 0x2000_0000_0000,
        ;
        lemma_mul_within(normal.x.bits as int, mag.bits as int, 0x2000_0000_0000_0000);
        lemma_mul_within(normal.y.bits as int, mag.bits as int, 0x2000_0000_0000_0000);
    }
    let fx = normal.x.mul(mag);
    let fy = normal.y.mul(mag);
    (
        FixedVec2::new(acc1.x.add(fx), acc1.y.add(fy)),
        FixedVec2::new(acc2.x.sub(fx), acc2.y.sub(fy)),
    )
}

/// First column the obstacle of `radius` at `pos` may reach: the left edge of
/// its bounding box, in cells, rounded down.
pub open spec fn obstacle_lo(pos: int, radius: int, origin: int, cell: int) -> int {
    (pos - radius - origin) / cell
}

/// One past the last column the obstacle may reach: the right edge of its
/// bounding box, in cells, rounded up.
pub open spec fn obstacle_hi(pos: int, radius: int, origin: int, cell: int) -> int {
    -((-(pos + radius - origin)) / cell)
}

/// Whether the obstacle of `radius` at `pos` blocks cell `(x, y)`: the cell
/// lies in the obstacle's bounding box rounded outward to whole cells, and its
/// centre lies closer to `pos` than `radius` (squared, each square rounded
/// down).
pub open spec fn obstacle_covers(ff: FlowField, pos: FixedVec2, radius: FixedNum, x: int, y: int) -> bool {
    let cs = ff.cell_size.bits as int;
    let c = ff.cell_center_spec(x, y);
    &&& obstacle_lo(pos.x.bits as int, radius.bits as int, ff.origin.x.bits as int, cs) <= x
    &&& x < obstacle_hi(pos.x.bits as int, radius.bits as int, ff.origin.x.bits as int, cs)
    &&& obstacle_lo(pos.y.bits as int, radius.bits as int, ff.origin.y.bits as int, cs) <= y
    &&& y < obstacle_hi(pos.y.bits as int, radius.bits as int, ff.origin.y.bits as int, cs)
    &&& length_squared_spec(c.x.bits - pos.x.bits, c.y.bits - pos.y.bits) < fixed_mul_spec(
        radius.bits as int,
        radius.bits as int,
    )
}

/// Everything of a flow field but its costs is the same.
pub open spec fn same_but_costs(a: FlowField, b: FlowField) -> bool {
    &&& a.width == b.width
    &&& a.height == b.height
    &&& a.cell_size == b.cell_size
    &&& a.origin == b.origin
    &&& a.integration_field@ == b.integration_field@
    &&& a.vector_field@ == b.vector_field@
    &&& a.target_cell == b.target_cell
}

proof fn lemma_centre_in_range(ff: FlowField, x: int, y: int)
    requires
        ff.geometry_ok(),
        ff.centres_in_range(),
        in_grid(ff.width as int, ff.height as int, x, y),
    ensures
        ff.cell_center_spec(x, y).in_range(),
{
    let cs = ff.cell_size.bits as int;
    assert(0 <= x * cs && x * cs + cs <= ff.width * cs) by (nonlinear_arith)
        requires
            0 <= x < ff.width,
            cs > 0,
    ;
    assert(0 <= y * cs && y * cs + cs <= ff.height * cs) by (nonlinear_arith)
        requires
            0 <= y < ff.height,
            cs > 0,
    ;
}

/// Rounded-down quotient of the integer `a` by a positive cell size.
fn cells_floor(a: i64, cell: FixedNum) -> (r: i64)
    requires
        cell.bits > 0,
        -0x100_0000_0000 <= a <= 0x100_0000_0000,
    ensures
        r == a as int / cell.bits as int,
        -0x100_0000_0000 <= r <= 0x100_0000_0000,
{
    let r = floor_div_fixed(FixedNum::from_bits(a), cell);
    proof {
        vstd::arithmetic::div_mod::lemma_div_is_ordered(a as int, 0x100_0000_0000, cell.bits as int);
        vstd::arithmetic::div_mod::lemma_div_is_ordered(-0x100_0000_0000, a as int, cell.bits as int);
        vstd::arithmetic::div_mod::lemma_div_is_ordered_by_denominator(0x100_0000_0000, 1, cell.bits as int);
        assert(-0x100_0000_0000int / (cell.bits as int) >= -0x100_0000_0000) by (nonlinear_arith)
            requires
                cell.bits >= 1,
        {
            vstd::arithmetic::div_mod::lemma_fundamental_div_mod(-0x100_0000_0000, cell.bits as int);
        }
    }
    r
}

/// Marks impassable every cell of the flow field whose centre lies within the
/// circular obstacle of `radius` at `pos`, as `obstacle_covers` says; a cell
/// already impassable stays so.
pub fn apply_obstacle_to_flow_field(flow_field: &mut FlowField, pos: FixedVec2, radius: FixedNum)
    requires
        old(flow_field).wf(),
        old(flow_field).geometry_ok(),
        old(flow_field).centres_in_range(),
        pos.in_range(),
        0 <= radius.bits <= PHYS_LIMIT,
    ensures
        final(flow_field).wf(),
        same_but_costs(*final(flow_field), *old(flow_field)),
        forall|x: int, y: int|
            in_grid(old(flow_field).width as int, old(flow_field).height as int, x, y) ==> #[trigger] at8(
                final(flow_field).cost_field@,
                old(flow_field).width as int,
                x,
                y,
            ) == if obstacle_covers(*old(flow_field), pos, radius, x, y) {
                OBSTACLE
            } else {
                at8(old(flow_field).cost_field@, old(flow_field).width as int, x, y)
            },
{
    let ghost before = *flow_field;
    let w = flow_field.width;
    let h = flow_field.height;
    let cs = flow_field.cell_size;
    let ox = flow_field.origin.x.bits;
    let oy = flow_field.origin.y.bits;
    proof {
        assert(w <= w * cs.bits && h <= h * cs.bits) by (nonlinear_arith)
            requires
                cs.bits >= 1,
        ;
    }
    let lo_x = cells_floor(pos.x.bits - radius.bits - ox, cs);
    let hi_x = -cells_floor(-(pos.x.bits + radius.bits - ox), cs);
    let lo_y = cells_floor(pos.y.bits - radius.bits - oy, cs);
    let hi_y = -cells_floor(-(pos.y.bits + radius.bits - oy), cs);
    proof {
        lemma_small_product(radius.bits as int, radius.bits as int);
    }
    let rr = radius.mul(radius);
    let xs: i64 = if lo_x < 0 { 0 } else { lo_x };
    let xe: i64 = if hi_x > w as i64 { w as i64 } else { hi_x };
    let ys: i64 = if lo_y < 0 { 0 } else { lo_y };
    let ye: i64 = if hi_y > h as i64 { h as i64 } else { hi_y };
    let mut y = ys;
    while y < ye
        invariant
            flow_field.wf(),
            same_but_costs(*flow_field, before),
            before.wf(),
            before.geometry_ok(),
            before.centres_in_range(),
            pos.in_range(),
            0 <= radius.bits <= PHYS_LIMIT,
            w == before.width,
            h == before.height,
            cs == before.cell_size,
            rr.bits == fixed_mul_spec(radius.bits as int, radius.bits as int),
            lo_x == obstacle_lo(pos.x.bits as int, radius.bits as int, ox as int, cs.bits as int),
            hi_x == obstacle_hi(pos.x.bits as int, radius.bits as int, ox as int, cs.bits as int),
            lo_y == obstacle_lo(pos.y.bits as int, radius.bits as int, oy as int, cs.bits as int),
            hi_y == obstacle_hi(pos.y.bits as int, radius.bits as int, oy as int, cs.bits as int),
            ox == before.origin.x.bits,
            oy == before.origin.y.bits,
            xs == if lo_x < 0 { 0 } else { lo_x },
            xe == if hi_x > w as i64 { w as i64 } else { hi_x },
            ys == if lo_y < 0 { 0 } else { lo_y },
            ye == if hi_y > h as i64 { h as i64 } else { hi_y },
            w <= COORD_LIMIT,
            h <= COORD_LIMIT,
            0 <= ys <= y,
            y <= ye || y == ys,
            forall|x2: int, y2: int|
                in_grid(w as int, h as int, x2, y2) ==> #[trigger] at8(flow_field.cost_field@, w as int, x2, y2)
                    == if y2 < y && obstacle_covers(before, pos, radius, x2, y2) {
                    OBSTACLE
                } else {
                    at8(before.cost_field@, w as int, x2, y2)
                },
        decreases ye - y,
    {
        let mut x = xs;
        while x < xe
            invariant
                flow_field.wf(),
                same_but_costs(*flow_field, before),
                before.wf(),
                before.geometry_ok(),
                before.centres_in_range(),
                pos.in_range(),
                0 <= radius.bits <= PHYS_LIMIT,
                w == before.width,
                h == before.height,
                cs == before.cell_size,
                rr.bits == fixed_mul_spec(radius.bits as int, radius.bits as int),
                lo_x == obstacle_lo(pos.x.bits as int, radius.bits as int, ox as int, cs.bits as int),
                hi_x == obstacle_hi(pos.x.bits as int, radius.bits as int, ox as int, cs.bits as int),
                lo_y == obstacle_lo(pos.y.bits as int, radius.bits as int, oy as int, cs.bits as int),
                hi_y == obstacle_hi(pos.y.bits as int, radius.bits as int, oy as int, cs.bits as int),
                ox == before.origin.x.bits,
                oy == before.origin.y.bits,
                xs == if lo_x < 0 { 0 } else { lo_x },
                xe == if hi_x > w as i64 { w as i64 } else { hi_x },
                ys == if lo_y < 0 { 0 } else { lo_y },
                ye == if hi_y > h as i64 { h as i64 } else { hi_y },
                w <= COORD_LIMIT,
                h <= COORD_LIMIT,
                0 <= ys <= y < ye,
                0 <= xs <= x,
                x <= xe || x == xs,
                forall|x2: int, y2: int|
                    in_grid(w as int, h as int, x2, y2) ==> #[trigger] at8(flow_field.cost_field@, w as int, x2, y2)
                        == if (y2 < y || (y2 == y && x2 < x)) && obstacle_covers(before, pos, radius, x2, y2) {
                        OBSTACLE
                    } else {
                        at8(before.cost_field@, w as int, x2, y2)
                    },
            decreases xe - x,
        {
            proof {
                lemma_centre_in_range(before, x as int, y as int);
            }
            let c = flow_field.grid_to_world(x as usize, y as usize);
            let d = c.sub(pos).length_squared();
            if d.lt(rr) {
                let ghost prev = flow_field.cost_field@;
                proof {
                    lemma_at8_update(prev, w as int, h as int, x as int, y as int, OBSTACLE);
                }
                flow_field.set_obstacle(x as usize, y as usize);
            }
            x = x + 1;
        }
        proof {
            assert forall|x2: int| 0 <= x2 < w && obstacle_covers(before, pos, radius, x2, y as int) implies x2 < x by {}
        }
        y = y + 1;
    }
    proof {
        assert forall|x2: int, y2: int| in_grid(w as int, h as int, x2, y2) && obstacle_covers(before, pos, radius, x2, y2) implies y2 < y by {}
    }
}

/// Distance from a squared distance: its square root, rounded down.
fn dist_of(d2: FixedNum) -> (r: FixedNum)
    requires
        0 <= d2.bits < 0x4000_0000_0000_0000,
    ensures
        r.bits == sqrt_bits(d2.bits as int),
        is_sqrt_bits(d2.bits as int, r.bits as int),
        0 <= r.bits <= 0x80_0000_0000,
{
    FixedNum::from_bits(sqrt_fixed_bits(d2.bits))
}

/// The offset `d` divided by its length `dist`: a vector of length about
/// one, each component rounded down.
fn unit_direction(d: FixedVec2, dist: FixedNum) -> (r: FixedVec2)
    requires
        -2 * COORD_LIMIT <= d.x.bits <= 2 * COORD_LIMIT,
        -2 * COORD_LIMIT <= d.y.bits <= 2 * COORD_LIMIT,
        is_sqrt_bits(length_squared_spec(d.x.bits as int, d.y.bits as int), dist.bits as int),
        dist.bits > 0,
    ensures
        r.x.bits == fixed_div_spec(d.x.bits as int, dist.bits as int),
        r.y.bits == fixed_div_spec(d.y.bits as int, dist.bits as int),
        -2 * ONE_BITS <= r.x.bits <= 2 * ONE_BITS,
        -2 * ONE_BITS <= r.y.bits <= 2 * ONE_BITS,
{
    proof {
        lemma_component_within_length(d.x.bits as int, d.y.bits as int, dist.bits as int);
        lemma_component_within_length(d.y.bits as int, d.x.bits as int, dist.bits as int);
        lemma_quotient_within(d.x.bits as int, dist.bits as int);
        lemma_quotient_within(d.y.bits as int, dist.bits as int);
    }
    FixedVec2::new(d.x.div(dist), d.y.div(dist))
}

/// Contact between entities at `pos` and `other` whose radii sum to
/// `min_dist`: where they are closer than that (squared, each square rounded
/// down), the overlap `min_dist - dist`, with the unit normal from `other`
/// to `pos` where the distance exceeds `epsilon`.
pub open spec fn contact_spec(pos: FixedVec2, other: FixedVec2, min_dist: FixedNum, epsilon: FixedNum) -> Option<(FixedNum, Option<FixedVec2>)> {
    let dx = pos.x.bits - other.x.bits;
    let dy = pos.y.bits - other.y.bits;
    let d2 = length_squared_spec(dx, dy);
    if d2 < fixed_mul_spec(min_dist.bits as int, min_dist.bits as int) {
        let dist = sqrt_bits(d2);
        let normal = if dist > epsilon.bits {
            Some(FixedVec2 {
                x: FixedNum { bits: fixed_div_spec(dx, dist) as i64 },
                y: FixedNum { bits: fixed_div_spec(dy, dist) as i64 },
            })
        } else {
            None
        };
        Some((FixedNum { bits: (min_dist.bits - dist) as i64 }, normal))
    } else {
        None
    }
}

/// Collision between `entity` and `other`, each pair looked at once (from
/// the entity with the smaller bits): `None` for the other order, for
/// colliders whose layers do not interact, and for entities that do not
/// touch; otherwise the contact, as `contact_spec` says for the sum of the
/// radii. Where the normal is `None` the entities sit on one point.
pub fn pair_contact(
    entity: u64,
    other: u64,
    pos: FixedVec2,
    other_pos: FixedVec2,
    collider: &Collider,
    other_collider: &Collider,
    epsilon: FixedNum,
) -> (r: Option<(FixedNum, Option<FixedVec2>)>)
    requires
        pos.in_range(),
        other_pos.in_range(),
        0 <= collider.radius.bits <= PHYS_LIMIT,
        0 <= other_collider.radius.bits <= PHYS_LIMIT,
        epsilon.bits >= 0,
    ensures
        r == if entity > other || !((collider.mask & other_collider.layer) != 0 || (other_collider.mask & collider.layer) != 0) {
            None
        } else {
            contact_spec(pos, other_pos, FixedNum { bits: (collider.radius.bits + other_collider.radius.bits) as i64 }, epsilon)
        },
{
    if entity > other {
        return None;
    }
    if !layers_interact(collider, other_collider) {
        return None;
    }
    let min_dist = collider.radius.add(other_collider.radius);
    proof {
        assert(0 <= min_dist.bits * min_dist.bits <= 0x400_0000_0000_0000_0000) by (nonlinear_arith)
            requires
                0 <= min_dist.bits <= 0x20_0000_0000,
        ;
        lemma_mul_within(min_dist.bits as int, min_dist.bits as int, 0x400_0000_0000_0000_0000);
    }
    let min_sq = min_dist.mul(min_dist);
    let d = pos.sub(other_pos);
    let d2 = d.length_squared();
    proof {
        assert(d2.bits <= 0x2000_0000_0000_0000) by (nonlinear_arith)
            requires
                d2.bits == length_squared_spec(d.x.bits as int, d.y.bits as int),
                -0x40_0000_0000 <= d.x.bits <= 0x40_0000_0000,
                -0x40_0000_0000 <= d.y.bits <= 0x40_0000_0000,
        {
            assert(d.x.bits * d.x.bits <= 0x1000_0000_0000_0000_0000);
            assert(d.y.bits * d.y.bits <= 0x1000_0000_0000_0000_0000);
        }
    }
    if d2.lt(min_sq) {
        let dist = dist_of(d2);
        let normal = if dist.bits > epsilon.bits {
            Some(unit_direction(d, dist))
        } else {
            None
        };
        Some((min_dist.sub(dist), normal))
    } else {
        None
    }
}

/// Bound, in bits, of one obstacle's push.
pub const OBSTACLE_PUSH_LIMIT: i64 = 0x4000_0000_0001;

/// Push on a unit at `pos` from an obstacle at `o_pos`, `min_dist` being the
/// sum of their radii: where they overlap (squared, each square rounded
/// down) and their squared distance exceeds `epsilon`, the unit direction
/// away from the obstacle scaled by the push strength for the overlap
/// (`repulsion_spec`, uncapped).
pub open spec fn obstacle_push_spec(
    pos: FixedVec2,
    o_pos: FixedVec2,
    min_dist: FixedNum,
    epsilon: FixedNum,
    repulsion: FixedNum,
    decay: FixedNum,
) -> Option<(int, int)> {
    let dx = pos.x.bits - o_pos.x.bits;
    let dy = pos.y.bits - o_pos.y.bits;
    let d2 = length_squared_spec(dx, dy);
    if d2 < fixed_mul_spec(min_dist.bits as int, min_dist.bits as int) && d2 > epsilon.bits {
        let dist = sqrt_bits(d2);
        let m = repulsion_spec(FixedNum { bits: (min_dist.bits - dist) as i64 }, repulsion, decay, None);
        Some((fixed_mul_spec(fixed_div_spec(dx, dist), m), fixed_mul_spec(fixed_div_spec(dy, dist), m)))
    } else {
        None
    }
}

proof fn lemma_dist_below(d2: int, dist: int, md: int)
    requires
        is_sqrt_bits(d2, dist),
        0 <= md,
        d2 < fixed_mul_spec(md, md),
    ensures
        dist < md,
{
    vstd::arithmetic::div_mod::lemma_fundamental_div_mod(md * md, 65536);
    assert(dist < md) by (nonlinear_arith)
        requires
            dist >= 0,
            dist * dist <= d2 * 65536,
            d2 + 1 <= (md * md) / 65536,
            65536 * ((md * md) / 65536) <= md * md,
            md >= 0,
    {
        if dist >= md {
            assert(dist * dist >= md * md);
        }
    }
}

/// The push of one obstacle, as `obstacle_push_spec` says.
pub fn obstacle_push(
    pos: FixedVec2,
    o_pos: FixedVec2,
    min_dist: FixedNum,
    epsilon: FixedNum,
    repulsion: FixedNum,
    decay: FixedNum,
) -> (r: Option<FixedVec2>)
    requires
        pos.in_range(),
        o_pos.in_range(),
        0 <= min_dist.bits <= 0x10_0000,
        epsilon.bits >= 0,
        num_ok(repulsion),
        0 <= decay.bits <= 0x10_0000,
    ensures
        match obstacle_push_spec(pos, o_pos, min_dist, epsilon, repulsion, decay) {
            Some((px, py)) => r matches Some(v) && v.x.bits == px && v.y.bits == py,
            None => r is None,
        },
        r matches Some(v) ==> -OBSTACLE_PUSH_LIMIT <= v.x.bits <= OBSTACLE_PUSH_LIMIT && -OBSTACLE_PUSH_LIMIT <= v.y.bits
            <= OBSTACLE_PUSH_LIMIT,
{
    proof {
        lemma_small_product(min_dist.bits as int, min_dist.bits as int);
    }
    let min_sq = min_dist.mul(min_dist);
    let d = pos.sub(o_pos);
    let d2 = d.length_squared();
    proof {
        assert(d2.bits <= 0x2000_0000_0000_0000) by (nonlinear_arith)
            requires
                d2.bits == length_squared_spec(d.x.bits as int, d.y.bits as int),
                -0x40_0000_0000 <= d.x.bits <= 0x40_0000_0000,
                -0x40_0000_0000 <= d.y.bits <= 0x40_0000_0000,
        {
            assert(d.x.bits * d.x.bits <= 0x1000_0000_0000_0000_0000);
            assert(d.y.bits * d.y.bits <= 0x1000_0000_0000_0000_0000);
        }
    }
    if d2.lt(min_sq) && d2.bits > epsilon.bits {
        let dist = dist_of(d2);
        proof {
            lemma_dist_below(d2.bits as int, dist.bits as int, min_dist.bits as int);
            assert(dist.bits > 0) by (nonlinear_arith)
                requires
                    (dist.bits + 1) * (dist.bits + 1) > d2.bits * 65536,
                    d2.bits >= 1,
                    dist.bits >= 0,
            ;
        }
        let overlap = min_dist.sub(dist);
        let mag = repulsion_magnitude(overlap, repulsion, decay, None);
        let dir = unit_direction(d, dist);
        proof {
            assert(-0x4000_0000_0000_0000 <= dir.x.bits * mag.bits <= 0x4000_0000_0000_0000) by (nonlinear_arith)
                requires
                    -0x2_0000 <= dir.x.bits <= 0x2_0000,
                    -0x2000_0000_0000 <= mag.bits <= 0x2000_0000_0000,
            ;
            assert(-0x4000_0000_0000_0000 <= dir.y.bits * mag.bits <= 0x4000_0000_0000_0000) by (nonlinear_arith)
                requires
                    -0x2_0000 <= dir.y.bits <= 0x2_0000,
                    -0x2000_0000_0000 <= mag.bits <= 0x2000_0000_0000,
            ;
            lemma_mul_within(dir.x.bits as int, mag.bits as int, 0x4000_0000_0000_0000);
            lemma_mul_within(dir.y.bits as int, mag.bits as int, 0x4000_0000_0000_0000);
        }
        Some(FixedVec2::new(dir.x.mul(mag), dir.y.mul(mag)))
    } else {
        None
    }
}

/// Push from cell `(x, y)` of the flow field: where the cell is impassable,
/// the push of an obstacle at its centre.
pub open spec fn cell_push(
    ff: FlowField,
    pos: FixedVec2,
    x: int,
    y: int,
    min_dist: FixedNum,
    epsilon: FixedNum,
    repulsion: FixedNum,
    decay: FixedNum,
) -> (int, int) {
    if at8(ff.cost_field@, ff.width as int, x, y) == OBSTACLE {
        match obstacle_push_spec(pos, ff.cell_center_spec(x, y), min_dist, epsilon, repulsion, decay) {
            Some(v) => v,
            None => (0, 0),
        }
    } else {
        (0, 0)
    }
}

/// Sum of the pushes of the first `k` cells, row by row, of the window with
/// lowest corner `(x0, y0)` and `w` columns.
pub open spec fn window_push_sum(
    ff: FlowField,
    pos: FixedVec2,
    x0: int,
    y0: int,
    w: int,
    k: int,
    min_dist: FixedNum,
    epsilon: FixedNum,
    repulsion: FixedNum,
    decay: FixedNum,
) -> (int, int)
    decreases k,
{
    if k <= 0 || w <= 0 {
        (0, 0)
    } else {
        let (sx, sy) = window_push_sum(ff, pos, x0, y0, w, k - 1, min_dist, epsilon, repulsion, decay);
        let (px, py) = cell_push(ff, pos, x0 + (k - 1) % w, y0 + (k - 1) / w, min_dist, epsilon, repulsion, decay);
        (sx + px, sy + py)
    }
}

/// Sum of the pushes of the first `k` free obstacles, given by position and
/// radius, on a unit of `radius` at `pos`.
pub open spec fn free_push_sum(
    pos: FixedVec2,
    radius: FixedNum,
    obs: Seq<(FixedVec2, FixedNum)>,
    k: int,
    epsilon: FixedNum,
    repulsion: FixedNum,
    decay: FixedNum,
) -> (int, int)
    decreases k,
{
    if k <= 0 {
        (0, 0)
    } else {
        let (sx, sy) = free_push_sum(pos, radius, obs, k - 1, epsilon, repulsion, decay);
        let (op, orad) = obs[k - 1];
        match obstacle_push_spec(pos, op, FixedNum { bits: (radius.bits + orad.bits) as i64 }, epsilon, repulsion, decay) {
            Some((px, py)) => (sx + px, sy + py),
            None => (sx, sy),
        }
    }
}

/// Free obstacles lie in range and are small enough to push with.
pub open spec fn free_obstacles_ok(radius: FixedNum, obs: Seq<(FixedVec2, FixedNum)>) -> bool {
    &&& obs.len() <= 65536
    &&& forall|i: int|
        0 <= i < obs.len() ==> {
            let (op, orad) = #[trigger] obs[i];
            op.in_range() && 0 <= radius.bits + orad.bits <= 0x10_0000
        }
}

/// Acceleration of a unit of `radius` at `pos` after the pushes of the
/// impassable cells of the flow field within `range` cells of its own (each
/// an obstacle of half a cell's radius) and of the free obstacles `free`.
pub open spec fn obstacle_acceleration_spec(
    acc: FixedVec2,
    pos: FixedVec2,
    radius: FixedNum,
    ff: FlowField,
    range: usize,
    free: Seq<(FixedVec2, FixedNum)>,
    epsilon: FixedNum,
    repulsion: FixedNum,
    decay: FixedNum,
) -> FixedVec2 {
    let md = FixedNum { bits: (radius.bits + ff.cell_size.bits / 2) as i64 };
    let (gx, gy) = match ff.world_to_grid_spec(pos) {
        Some((cx, cy)) => {
            let x0 = if cx >= range { cx - range } else { 0 };
            let x1 = if cx + range < ff.width { cx + range } else { ff.width - 1 };
            let y0 = if cy >= range { cy - range } else { 0 };
            let y1 = if cy + range < ff.height { cy + range } else { ff.height - 1 };
            let w = x1 - x0 + 1;
            window_push_sum(ff, pos, x0, y0, w, w * (y1 - y0 + 1), md, epsilon, repulsion, decay)
        },
        None => (0, 0),
    };
    let (fx, fy) = free_push_sum(pos, radius, free, free.len() as int, epsilon, repulsion, decay);
    FixedVec2 {
        x: FixedNum { bits: (acc.x.bits + gx + fx) as i64 },
        y: FixedNum { bits: (acc.y.bits + gy + fy) as i64 },
    }
}

/// Sum of the pushes of the window `[x0, x1] x [y0, y1]`.
fn window_pushes(
    ff: &FlowField,
    pos: FixedVec2,
    x0: usize,
    x1: usize,
    y0: usize,
    y1: usize,
    min_dist: FixedNum,
    epsilon: FixedNum,
    repulsion: FixedNum,
    decay: FixedNum,
) -> (r: (i64, i64))
    requires
        ff.wf(),
        ff.geometry_ok(),
        ff.centres_in_range(),
        pos.in_range(),
        x0 <= x1 < ff.width,
        y0 <= y1 < ff.height,
        (x1 - x0 + 1) * (y1 - y0 + 1) <= 16641,
        0 <= min_dist.bits <= 0x10_0000,
        epsilon.bits >= 0,
        num_ok(repulsion),
        0 <= decay.bits <= 0x10_0000,
    ensures
        (r.0 as int, r.1 as int) == window_push_sum(
            *ff,
            pos,
            x0 as int,
            y0 as int,
            x1 - x0 + 1,
            (x1 - x0 + 1) * (y1 - y0 + 1),
            min_dist,
            epsilon,
            repulsion,
            decay,
        ),
        -16641 * OBSTACLE_PUSH_LIMIT <= r.0 <= 16641 * OBSTACLE_PUSH_LIMIT,
        -16641 * OBSTACLE_PUSH_LIMIT <= r.1 <= 16641 * OBSTACLE_PUSH_LIMIT,
{
    let w = x1 - x0 + 1;
    let h = y1 - y0 + 1;
    let n = w * h;
    let mut sx: i64 = 0;
    let mut sy: i64 = 0;
    let mut k: usize = 0;
    while k < n
        invariant
            ff.wf(),
            ff.geometry_ok(),
            ff.centres_in_range(),
            pos.in_range(),
            x0 <= x1 < ff.width,
            y0 <= y1 < ff.height,
            w == x1 - x0 + 1,
            h == y1 - y0 + 1,
            n == w * h,
            n <= 16641,
            0 <= min_dist.bits <= 0x10_0000,
            epsilon.bits >= 0,
            num_ok(repulsion),
            0 <= decay.bits <= 0x10_0000,
            k <= n,
            (sx as int, sy as int) == window_push_sum(*ff, pos, x0 as int, y0 as int, w as int, k as int, min_dist, epsilon, repulsion, decay),
            -(k * OBSTACLE_PUSH_LIMIT) <= sx <= k * OBSTACLE_PUSH_LIMIT,
            -(k * OBSTACLE_PUSH_LIMIT) <= sy <= k * OBSTACLE_PUSH_LIMIT,
        decreases n - k,
    {
        proof {
            assert(k / w < h) by (nonlinear_arith)
                requires
                    k < w * h,
                    w >= 1,
            {
                vstd::arithmetic::div_mod::lemma_fundamental_div_mod(k as int, w as int);
                if k / w >= h {
                    assert(w * (k / w) >= w * h);
                }
            }
            assert(k % w < w) by {
                vstd::arithmetic::div_mod::lemma_mod_bound(k as int, w as int);
            }
        }
        let x = x0 + k % w;
        let y = y0 + k / w;
        proof {
            lemma_idx_bounds(ff.width as int, ff.height as int, x as int, y as int);
            lemma_centre_in_range(*ff, x as int, y as int);
        }
        if ff.cost_field[ff.get_index(x, y)] == OBSTACLE {
            let c = ff.grid_to_world(x, y);
            match obstacle_push(pos, c, min_dist, epsilon, repulsion, decay) {
                Some(v) => {
                    sx = sx + v.x.bits;
                    sy = sy + v.y.bits;
                },
                None => {},
            }
        }
        k = k + 1;
    }
    (sx, sy)
}

/// Sum of the pushes of the free obstacles `obs` on a unit of `radius`.
fn free_pushes(
    pos: FixedVec2,
    radius: FixedNum,
    obs: &[(FixedVec2, FixedNum)],
    epsilon: FixedNum,
    repulsion: FixedNum,
    decay: FixedNum,
) -> (r: (i64, i64))
    requires
        pos.in_range(),
        free_obstacles_ok(radius, obs@),
        epsilon.bits >= 0,
        num_ok(repulsion),
        0 <= decay.bits <= 0x10_0000,
    ensures
        (r.0 as int, r.1 as int) == free_push_sum(pos, radius, obs@, obs@.len() as int, epsilon, repulsion, decay),
        -65536 * OBSTACLE_PUSH_LIMIT <= r.0 <= 65536 * OBSTACLE_PUSH_LIMIT,
        -65536 * OBSTACLE_PUSH_LIMIT <= r.1 <= 65536 * OBSTACLE_PUSH_LIMIT,
{
    let mut sx: i64 = 0;
    let mut sy: i64 = 0;
    let mut i: usize = 0;
    while i < obs.len()
        invariant
            pos.in_range(),
            free_obstacles_ok(radius, obs@),
            epsilon.bits >= 0,
            num_ok(repulsion),
            0 <= decay.bits <= 0x10_0000,
            i <= obs@.len(),
            (sx as int, sy as int) == free_push_sum(pos, radius, obs@, i as int, epsilon, repulsion, decay),
            -(i * OBSTACLE_PUSH_LIMIT) <= sx <= i * OBSTACLE_PUSH_LIMIT,
            -(i * OBSTACLE_PUSH_LIMIT) <= sy <= i * OBSTACLE_PUSH_LIMIT,
        decreases obs@.len() - i,
    {
        let (op, orad) = obs[i];
        proof {
            assert(obs@[i as int] == (op, orad));
        }
        let md = FixedNum::from_bits(radius.bits + orad.bits);
        match obstacle_push(pos, op, md, epsilon, repulsion, decay) {
            Some(v) => {
                sx = sx + v.x.bits;
                sy = sy + v.y.bits;
            },
            None => {},
        }
        i = i + 1;
    }
    (sx, sy)
}

/// Acceleration of a unit after the pushes of nearby obstacles, as
/// `obstacle_acceleration_spec` says: the impassable cells of `ff` within
/// `range` cells of the unit's own, and the free obstacles `free`.
pub fn obstacle_acceleration(
    acc: FixedVec2,
    pos: FixedVec2,
    radius: FixedNum,
    ff: &FlowField,
    range: usize,
    free: &[(FixedVec2, FixedNum)],
    epsilon: FixedNum,
    repulsion: FixedNum,
    decay: FixedNum,
) -> (r: FixedVec2)
    requires
        phys_ok(acc),
        pos.in_range(),
        ff.wf(),
        ff.geometry_ok(),
        ff.centres_in_range(),
        range <= 64,
        ff.width + range <= usize::MAX,
        ff.height + range <= usize::MAX,
        0 <= radius.bits,
        radius.bits + ff.cell_size.bits / 2 <= 0x10_0000,
        free_obstacles_ok(radius, free@),
        epsilon.bits >= 0,
        num_ok(repulsion),
        0 <= decay.bits <= 0x10_0000,
    ensures
        r == obstacle_acceleration_spec(acc, pos, radius, *ff, range, free@, epsilon, repulsion, decay),
{
    let md = FixedNum::from_bits(radius.bits + ff.cell_size.half().bits);
    let (gx, gy) = match ff.world_to_grid(pos) {
        Some((cx, cy)) => {
            let (x0, x1, y0, y1) = search_window(cx, cy, range, ff.width, ff.height);
            proof {
                assert((x1 - x0 + 1) * (y1 - y0 + 1) <= 16641) by (nonlinear_arith)
                    requires
                        0 < x1 - x0 + 1 <= 129,
                        0 < y1 - y0 + 1 <= 129,
                ;
            }
            window_pushes(ff, pos, x0, x1, y0, y1, md, epsilon, repulsion, decay)
        },
        None => (0, 0),
    };
    let (fx, fy) = free_pushes(pos, radius, free, epsilon, repulsion, decay);
    FixedVec2::new(FixedNum::from_bits(acc.x.bits + gx + fx), FixedNum::from_bits(acc.y.bits + gy + fy))
}

/// `v`, brought back to length `limit` along its direction where it is
/// longer (squared, each square rounded down).
pub open spec fn clamp_len(v: FixedVec2, limit: FixedNum) -> FixedVec2 {
    if length_squared_spec(v.x.bits as int, v.y.bits as int) > fixed_mul_spec(limit.bits as int, limit.bits as int) {
        let (ux, uy) = normalize_spec(v.x.bits as int, v.y.bits as int);
        FixedVec2 {
            x: FixedNum { bits: fixed_mul_spec(ux, limit.bits as int) as i64 },
            y: FixedNum { bits: fixed_mul_spec(uy, limit.bits as int) as i64 },
        }
    } else {
        v
    }
}

/// `v + d`, componentwise.
pub open spec fn plus(v: FixedVec2, d: FixedVec2) -> FixedVec2 {
    FixedVec2 {
        x: FixedNum { bits: (v.x.bits + d.x.bits) as i64 },
        y: FixedNum { bits: (v.y.bits + d.y.bits) as i64 },
    }
}

/// Position, velocity and acceleration after one tick of length `delta`:
/// the acceleration clamped to `max_acc`; where it is not zero, added to the
/// velocity and then zeroed; the velocity clamped to `max_vel`; where it is
/// not zero, the position moved by it; then both kept on the map.
pub open spec fn velocity_step_spec(
    pos: FixedVec2,
    vel: FixedVec2,
    acc: FixedVec2,
    delta: FixedNum,
    max_vel: FixedNum,
    max_acc: FixedNum,
    half_w: FixedNum,
    half_h: FixedNum,
) -> (FixedVec2, FixedVec2, FixedVec2) {
    let zero = FixedVec2 { x: FixedNum { bits: 0 }, y: FixedNum { bits: 0 } };
    let a = clamp_len(acc, max_acc);
    let (v1, a1) = if length_squared_spec(a.x.bits as int, a.y.bits as int) > 0 {
        (plus(vel, scaled(a, delta)), zero)
    } else {
        (vel, a)
    };
    let v2 = clamp_len(v1, max_vel);
    let p1 = if length_squared_spec(v2.x.bits as int, v2.y.bits as int) > 0 {
        plus(pos, scaled(v2, delta))
    } else {
        pos
    };
    let (p2, v3) = constrain_spec(p1, v2, half_w, half_h);
    (p2, v3, a1)
}

/// `v` clamped to length `limit`, as `clamp_len` says.
fn clamp_length(v: FixedVec2, limit: FixedNum) -> (r: FixedVec2)
    requires
        -2 * COORD_LIMIT <= v.x.bits <= 2 * COORD_LIMIT,
        -2 * COORD_LIMIT <= v.y.bits <= 2 * COORD_LIMIT,
        num_ok(limit),
    ensures
        r == clamp_len(v, limit),
        r != v ==> -0x20_0000_0001 <= r.x.bits <= 0x20_0000_0001 && -0x20_0000_0001 <= r.y.bits <= 0x20_0000_0001,
{
    proof {
        lemma_small_product(limit.bits as int, limit.bits as int);
    }
    let lim_sq = limit.mul(limit);
    if v.length_squared().bits > lim_sq.bits {
        let u = v.normalize();
        proof {
            assert(-0x20_0000_0000_0000 <= u.x.bits * limit.bits <= 0x20_0000_0000_0000) by (nonlinear_arith)
                requires
                    -0x2_0000 <= u.x.bits <= 0x2_0000,
                    -0x10_0000_0000 <= limit.bits <= 0x10_0000_0000,
            ;
            assert(-0x20_0000_0000_0000 <= u.y.bits * limit.bits <= 0x20_0000_0000_0000) by (nonlinear_arith)
                requires
                    -0x2_0000 <= u.y.bits <= 0x2_0000,
                    -0x10_0000_0000 <= limit.bits <= 0x10_0000_0000,
            ;
            lemma_mul_within(u.x.bits as int, limit.bits as int, 0x20_0000_0000_0000);
            lemma_mul_within(u.y.bits as int, limit.bits as int, 0x20_0000_0000_0000);
        }
        FixedVec2::new(u.x.mul(limit), u.y.mul(limit))
    } else {
        v
    }
}

/// One tick of movement for an entity, as `velocity_step_spec` says:
/// returns the new position, velocity and acceleration.
pub fn velocity_step(
    pos: FixedVec2,
    vel: FixedVec2,
    acc: FixedVec2,
    delta: FixedNum,
    max_vel: FixedNum,
    max_acc: FixedNum,
    half_w: FixedNum,
    half_h: FixedNum,
) -> (r: (FixedVec2, FixedVec2, FixedVec2))
    requires
        pos.in_range(),
        phys_ok(vel),
        phys_ok(acc),
        0 <= delta.bits <= ONE_BITS,
        num_ok(max_vel),
        num_ok(max_acc),
        0 <= half_w.bits <= PHYS_LIMIT,
        0 <= half_h.bits <= PHYS_LIMIT,
    ensures
        r == velocity_step_spec(pos, vel, acc, delta, max_vel, max_acc, half_w, half_h),
{
    let a = clamp_length(acc, max_acc);
    let (v1, a1) = if a.length_squared().bits > 0 {
        proof {
            lemma_friction_shrinks_wide(a.x.bits as int, delta.bits as int);
            lemma_friction_shrinks_wide(a.y.bits as int, delta.bits as int);
        }
        let d = FixedVec2::new(a.x.mul(delta), a.y.mul(delta));
        (FixedVec2::new(vel.x.add(d.x), vel.y.add(d.y)), FixedVec2::new(FixedNum::zero(), FixedNum::zero()))
    } else {
        (vel, a)
    };
    let v2 = clamp_length(v1, max_vel);
    let p1 = if v2.length_squared().bits > 0 {
        proof {
            lemma_friction_shrinks_wide(v2.x.bits as int, delta.bits as int);
            lemma_friction_shrinks_wide(v2.y.bits as int, delta.bits as int);
        }
        FixedVec2::new(pos.x.add(v2.x.mul(delta)), pos.y.add(v2.y.mul(delta)))
    } else {
        pos
    };
    let (p2, v3) = constrain_to_map(p1, v2, half_w, half_h);
    (p2, v3, a1)
}

/// Scaling by a factor between zero and one does not grow a value (beyond
/// rounding down by one).
proof fn lemma_friction_shrinks_wide(a: int, f: int)
    requires
        0 <= f <= 65536,
    ensures
        a >= 0 ==> 0 <= fixed_mul_spec(a, f) <= a,
        a < 0 ==> a - 1 <= fixed_mul_spec(a, f) <= 0,
{
    if a >= 0 {
        assert(0 <= a * f <= a * 65536) by (nonlinear_arith)
            requires
                a >= 0,
                0 <= f <= 65536,
        ;
        vstd::arithmetic::div_mod::lemma_div_is_ordered(a * f, a * 65536, 65536);
        vstd::arithmetic::div_mod::lemma_div_is_ordered(0, a * f, 65536);
        vstd::arithmetic::div_mod::lemma_div_multiples_vanish(a, 65536);
    } else {
        assert(a * 65536 <= a * f <= 0) by (nonlinear_arith)
            requires
                a < 0,
                0 <= f <= 65536,
        ;
        vstd::arithmetic::div_mod::lemma_div_is_ordered(a * f, 0, 65536);
        vstd::arithmetic::div_mod::lemma_div_is_ordered(a * 65536, a * f, 65536);
        vstd::arithmetic::div_mod::lemma_div_multiples_vanish(a, 65536);
    }
}

/// Bound of a steering velocity, in bits.
pub const TOWARD_LIMIT: i64 = 0x20_0000_0001;

/// Velocity of `max_speed` along `(x, y)`, zero for the zero vector.
pub open spec fn toward(x: int, y: int, max_speed: FixedNum) -> (int, int) {
    if length_squared_spec(x, y) > 0 {
        let (ux, uy) = normalize_spec(x, y);
        (fixed_mul_spec(ux, max_speed.bits as int), fixed_mul_spec(uy, max_speed.bits as int))
    } else {
        (0, 0)
    }
}

/// Velocity of `max_speed` along `v`, as `toward` says.
pub fn toward_velocity(v: FixedVec2, max_speed: FixedNum) -> (r: FixedVec2)
    requires
        -2 * COORD_LIMIT <= v.x.bits <= 2 * COORD_LIMIT,
        -2 * COORD_LIMIT <= v.y.bits <= 2 * COORD_LIMIT,
        num_ok(max_speed),
    ensures
        (r.x.bits as int, r.y.bits as int) == toward(v.x.bits as int, v.y.bits as int, max_speed),
        -TOWARD_LIMIT <= r.x.bits <= TOWARD_LIMIT,
        -TOWARD_LIMIT <= r.y.bits <= TOWARD_LIMIT,
{
    if v.length_squared().bits > 0 {
        let u = v.normalize();
        proof {
            assert(-0x20_0000_0000_0000 <= u.x.bits * max_speed.bits <= 0x20_0000_0000_0000) by (nonlinear_arith)
                requires
                    -0x2_0000 <= u.x.bits <= 0x2_0000,
                    -0x10_0000_0000 <= max_speed.bits <= 0x10_0000_0000,
            ;
            assert(-0x20_0000_0000_0000 <= u.y.bits * max_speed.bits <= 0x20_0000_0000_0000) by (nonlinear_arith)
                requires
                    -0x2_0000 <= u.y.bits <= 0x2_0000,
                    -0x10_0000_0000 <= max_speed.bits <= 0x10_0000_0000,
            ;
            lemma_mul_within(u.x.bits as int, max_speed.bits as int, 0x20_0000_0000_0000);
            lemma_mul_within(u.y.bits as int, max_speed.bits as int, 0x20_0000_0000_0000);
        }
        FixedVec2::new(u.x.mul(max_speed), u.y.mul(max_speed))
    } else {
        FixedVec2::new(FixedNum::zero(), FixedNum::zero())
    }
}


/// Acceleration after seeking `target` from `pos` at `speed`: where the
/// target is elsewhere, the steering `toward(target - pos) - vel`, clamped to
/// `max_force`, is added.
pub open spec fn seek_spec(
    pos: FixedVec2,
    target: FixedVec2,
    vel: FixedVec2,
    acc: FixedVec2,
    speed: FixedNum,
    max_force: FixedNum,
) -> FixedVec2 {
    let dx = target.x.bits - pos.x.bits;
    let dy = target.y.bits - pos.y.bits;
    if length_squared_spec(dx, dy) > 0 {
        let (wx, wy) = toward(dx, dy, speed);
        let steer = FixedVec2 {
            x: FixedNum { bits: (wx - vel.x.bits) as i64 },
            y: FixedNum { bits: (wy - vel.y.bits) as i64 },
        };
        plus(acc, clamp_len(steer, max_force))
    } else {
        acc
    }
}

/// Seek steering: accelerates toward `target`, as `seek_spec` says.
pub fn seek(pos: FixedVec2, target: FixedVec2, vel: FixedVec2, acc: &mut FixedVec2, speed: FixedNum, max_force: FixedNum)
    requires
        pos.in_range(),
        target.in_range(),
        phys_ok(vel),
        phys_ok(*old(acc)),
        num_ok(speed),
        num_ok(max_force),
    ensures
        *final(acc) == seek_spec(pos, target, vel, *old(acc), speed, max_force),
{
    let d = target.sub(pos);
    if d.length_squared().bits > 0 {
        let desired = toward_velocity(d, speed);
        let steer = FixedVec2::new(desired.x.sub(vel.x), desired.y.sub(vel.y));
        let f = clamp_length(steer, max_force);
        *acc = FixedVec2::new(acc.x.add(f.x), acc.y.add(f.y));
    }
}

/// Kind of a force source.
#[derive(Debug, Clone, Copy, PartialEq, Eq, Structural)]
pub enum ForceType {
    /// Pull toward the source of this strength (a negative one pushes away).
    Radial(FixedNum),
    /// A constant force.
    Directional(FixedVec2),
}

/// A source of force (a black hole, wind) acting within `radius`, or
/// everywhere where `radius` is not positive.
#[derive(Debug, Clone, Copy, PartialEq, Eq, Structural)]
pub struct ForceSource {
    pub force_type: ForceType,
    pub radius: FixedNum,
}

/// Distance, in bits, within which a radial source exerts no force (0.1).
pub const RADIAL_MIN_DIST_BITS: i64 = 6554;

/// Force of the source at `s_pos` on a unit at `u_pos`: nothing beyond a
/// positive radius (squared, each square rounded down); a radial source
/// pulls along the unit direction toward it, scaled by its strength, unless
/// closer than `RADIAL_MIN_DIST_BITS`; a directional source adds its vector.
pub open spec fn source_force(u_pos: FixedVec2, s_pos: FixedVec2, source: ForceSource) -> (int, int) {
    let dx = s_pos.x.bits - u_pos.x.bits;
    let dy = s_pos.y.bits - u_pos.y.bits;
    let d2 = length_squared_spec(dx, dy);
    if source.radius.bits > 0 && d2 > fixed_mul_spec(source.radius.bits as int, source.radius.bits as int) {
        (0, 0)
    } else {
        match source.force_type {
            ForceType::Radial(strength) => {
                let dist = sqrt_bits(d2);
                if dist > RADIAL_MIN_DIST_BITS {
                    (
                        fixed_mul_spec(fixed_div_spec(dx, dist), strength.bits as int),
                        fixed_mul_spec(fixed_div_spec(dy, dist), strength.bits as int),
                    )
                } else {
                    (0, 0)
                }
            },
            ForceType::Directional(d) => (d.x.bits as int, d.y.bits as int),
        }
    }
}

/// Sum of the forces of the first `k` sources.
pub open spec fn source_force_sum(u_pos: FixedVec2, sources: Seq<(FixedVec2, ForceSource)>, k: int) -> (int, int)
    decreases k,
{
    if k <= 0 {
        (0, 0)
    } else {
        let (sx, sy) = source_force_sum(u_pos, sources, k - 1);
        let (s_pos, source) = sources[k - 1];
        let (fx, fy) = source_force(u_pos, s_pos, source);
        (sx + fx, sy + fy)
    }
}

/// Sources lie in range, with strengths, vectors and radii within bounds,
/// and there are at most 65536 of them.
pub open spec fn sources_ok(sources: Seq<(FixedVec2, ForceSource)>) -> bool {
    &&& sources.len() <= 65536
    &&& forall|i: int|
        0 <= i < sources.len() ==> {
            let (s_pos, source) = #[trigger] sources[i];
            &&& s_pos.in_range()
            &&& num_ok(source.radius)
            &&& match source.force_type {
                ForceType::Radial(strength) => num_ok(strength),
                ForceType::Directional(d) => phys_ok(d),
            }
        }
}

/// Force of one source, as `source_force` says.
fn force_of(u_pos: FixedVec2, s_pos: FixedVec2, source: &ForceSource) -> (r: (i64, i64))
    requires
        u_pos.in_range(),
        s_pos.in_range(),
        num_ok(source.radius),
        match source.force_type {
            ForceType::Radial(strength) => num_ok(strength),
            ForceType::Directional(d) => phys_ok(d),
        },
    ensures
        (r.0 as int, r.1 as int) == source_force(u_pos, s_pos, *source),
        -0x20_0000_0001 <= r.0 <= 0x20_0000_0001,
        -0x20_0000_0001 <= r.1 <= 0x20_0000_0001,
{
    let d = s_pos.sub(u_pos);
    let d2 = d.length_squared();
    proof {
        lemma_small_product(source.radius.bits as int, source.radius.bits as int);
        assert(d2.bits <= 0x2000_0000_0000_0000) by (nonlinear_arith)
            requires
                d2.bits == length_squared_spec(d.x.bits as int, d.y.bits as int),
                -0x40_0000_0000 <= d.x.bits <= 0x40_0000_0000,
                -0x40_0000_0000 <= d.y.bits <= 0x40_0000_0000,
        {
            assert(d.x.bits * d.x.bits <= 0x1000_0000_0000_0000_0000);
            assert(d.y.bits * d.y.bits <= 0x1000_0000_0000_0000_0000);
        }
    }
    if source.radius.bits > 0 && d2.bits > source.radius.mul(source.radius).bits {
        return (0, 0);
    }
    match source.force_type {
        ForceType::Radial(strength) => {
            let dist = dist_of(d2);
            if dist.bits > RADIAL_MIN_DIST_BITS {
                let dir = unit_direction(d, dist);
                proof {
                    assert(-0x20_0000_0000_0000 <= dir.x.bits * strength.bits <= 0x20_0000_0000_0000) by (nonlinear_arith)
                        requires
                            -0x2_0000 <= dir.x.bits <= 0x2_0000,
                            -0x10_0000_0000 <= strength.bits <= 0x10_0000_0000,
                    ;
                    assert(-0x20_0000_0000_0000 <= dir.y.bits * strength.bits <= 0x20_0000_0000_0000) by (nonlinear_arith)
                        requires
                            -0x2_0000 <= dir.y.bits <= 0x2_0000,
                            -0x10_0000_0000 <= strength.bits <= 0x10_0000_0000,
                    ;
                    lemma_mul_within(dir.x.bits as int, strength.bits as int, 0x20_0000_0000_0000);
                    lemma_mul_within(dir.y.bits as int, strength.bits as int, 0x20_0000_0000_0000);
                }
                (dir.x.mul(strength).bits, dir.y.mul(strength).bits)
            } else {
                (0, 0)
            }
        },
        ForceType::Directional(v) => (v.x.bits, v.y.bits),
    }
}

/// Acceleration of a unit at `u_pos` after the forces of all `sources`
/// (each a position and a source): `acc` plus their sum.
pub fn apply_source_forces(acc: FixedVec2, u_pos: FixedVec2, sources: &[(FixedVec2, ForceSource)]) -> (r: FixedVec2)
    requires
        phys_ok(acc),
        u_pos.in_range(),
        sources_ok(sources@),
    ensures
        ({
            let (sx, sy) = source_force_sum(u_pos, sources@, sources@.len() as int);
            r == (FixedVec2 { x: FixedNum { bits: (acc.x.bits + sx) as i64 }, y: FixedNum { bits: (acc.y.bits + sy) as i64 } })
        }),
{
    let mut sx: i64 = 0;
    let mut sy: i64 = 0;
    let mut i: usize = 0;
    while i < sources.len()
        invariant
            u_pos.in_range(),
            sources_ok(sources@),
            i <= sources@.len(),
            (sx as int, sy as int) == source_force_sum(u_pos, sources@, i as int),
            -(i * 0x20_0000_0001) <= sx <= i * 0x20_0000_0001,
            -(i * 0x20_0000_0001) <= sy <= i * 0x20_0000_0001,
        decreases sources@.len() - i,
    {
        let (s_pos, source) = sources[i];
        proof {
            assert(sources@[i as int] == (s_pos, source));
        }
        let (fx, fy) = force_of(u_pos, s_pos, &source);
        sx = sx + fx;
        sy = sy + fy;
        i = i + 1;
    }
    FixedVec2::new(FixedNum::from_bits(acc.x.bits + sx), FixedNum::from_bits(acc.y.bits + sy))
}

} // verus!
