//! Flocking: separation, alignment and cohesion steering of a unit from the
//! cached list of its neighbours.
use vstd::prelude::*;
use crate::fixed::{
    FixedNum,
    FixedVec2,
    ONE_BITS,
    COORD_LIMIT,
    fixed_mul_spec,
    fixed_div_spec,
    length_squared_spec,
    normalize_spec,
    lemma_mul_within,
    sqrt_bits,
    is_sqrt_bits,
};
use crate::simulation::{PHYS_LIMIT, TOWARD_LIMIT, phys_ok, num_ok, toward, toward_velocity};

verus! {

/// Squared distance, in bits, at or below which separation pushes along the
/// normalised offset at full strength (0.25).
pub const CLOSE_DIST_SQ_BITS: i64 = 16384;

/// Largest separation strength, in bits (100.0).
pub const MAX_SEPARATION_BITS: i64 = 6553600;

/// Tuning of the flocking behaviour.
#[derive(Debug, Clone, Copy, PartialEq, Eq, Structural)]
pub struct BoidsParams {
    pub separation_weight: FixedNum,
    pub alignment_weight: FixedNum,
    pub cohesion_weight: FixedNum,
    /// Neighbours farther than this are ignored.
    pub neighbor_radius: FixedNum,
    /// Neighbours closer than this push the unit away.
    pub separation_radius: FixedNum,
    /// Speed the steering aims for, and the speed limit.
    pub max_speed: FixedNum,
}

/// The parameters stay within the range the arithmetic accepts.
pub open spec fn params_ok(p: BoidsParams) -> bool {
    &&& num_ok(p.separation_weight)
    &&& num_ok(p.alignment_weight)
    &&& num_ok(p.cohesion_weight)
    &&& num_ok(p.neighbor_radius)
    &&& num_ok(p.separation_radius)
    &&& num_ok(p.max_speed)
}

/// A cached neighbour: its entity, position and velocity.
pub type Neighbor = (u64, FixedVec2, FixedVec2);

/// Every neighbour's position and velocity lie in range, and there are at
/// most 65536 of them.
pub open spec fn neighbors_ok(nb: Seq<Neighbor>) -> bool {
    &&& nb.len() <= 65536
    &&& forall|i: int|
        0 <= i < nb.len() ==> {
            let (e, op, ov) = #[trigger] nb[i];
            op.in_range() && phys_ok(ov)
        }
}

/// Offset from the neighbour at `op` to the unit at `pos`, and its squared
/// length.
pub open spec fn offset(pos: FixedVec2, op: FixedVec2) -> (int, int, int) {
    let dx = pos.x.bits - op.x.bits;
    let dy = pos.y.bits - op.y.bits;
    (dx, dy, length_squared_spec(dx, dy))
}

/// Whether the neighbour `(e, op)` counts for the unit `entity` at `pos`: it
/// is another entity, no farther than the neighbour radius.
pub open spec fn counts(entity: u64, pos: FixedVec2, e: u64, op: FixedVec2, p: BoidsParams) -> bool {
    let (dx, dy, d2) = offset(pos, op);
    e != entity && d2 <= fixed_mul_spec(p.neighbor_radius.bits as int, p.neighbor_radius.bits as int)
}

/// Whether a counted neighbour at `op` pushes the unit away: closer than the
/// separation radius, and not at the unit's very position.
pub open spec fn separates(pos: FixedVec2, op: FixedVec2, p: BoidsParams) -> bool {
    let (dx, dy, d2) = offset(pos, op);
    d2 < fixed_mul_spec(p.separation_radius.bits as int, p.separation_radius.bits as int) && d2 > 0
}

/// The push from a neighbour at offset `(dx, dy)`, squared distance `d2`,
/// for the squared separation radius `sr2`: beyond `CLOSE_DIST_SQ_BITS`, the
/// offset scaled by `sr2 / d2` capped at `MAX_SEPARATION_BITS`; closer, the
/// normalised offset at that cap.
pub open spec fn push_from(dx: int, dy: int, d2: int, sr2: int) -> (int, int) {
    if d2 > CLOSE_DIST_SQ_BITS {
        let strength = fixed_div_spec(sr2, d2);
        let capped = if strength < MAX_SEPARATION_BITS { strength } else { MAX_SEPARATION_BITS as int };
        (fixed_mul_spec(dx, capped), fixed_mul_spec(dy, capped))
    } else {
        let (ux, uy) = normalize_spec(dx, dy);
        (fixed_mul_spec(ux, MAX_SEPARATION_BITS as int), fixed_mul_spec(uy, MAX_SEPARATION_BITS as int))
    }
}

/// The push from a neighbour at `op` on the unit at `pos`.
pub open spec fn push(pos: FixedVec2, op: FixedVec2, p: BoidsParams) -> (int, int) {
    let (dx, dy, d2) = offset(pos, op);
    push_from(dx, dy, d2, fixed_mul_spec(p.separation_radius.bits as int, p.separation_radius.bits as int))
}

/// Number of counted neighbours among the first `k`.
pub open spec fn count_sum(entity: u64, pos: FixedVec2, nb: Seq<Neighbor>, p: BoidsParams, k: int) -> int
    decreases k,
{
    if k <= 0 {
        0
    } else {
        let (e, op, ov) = nb[k - 1];
        count_sum(entity, pos, nb, p, k - 1) + if counts(entity, pos, e, op, p) { 1int } else { 0int }
    }
}

/// Sum of the velocities of the counted neighbours among the first `k`.
pub open spec fn align_sum(entity: u64, pos: FixedVec2, nb: Seq<Neighbor>, p: BoidsParams, k: int) -> (int, int)
    decreases k,
{
    if k <= 0 {
        (0, 0)
    } else {
        let (sx, sy) = align_sum(entity, pos, nb, p, k - 1);
        let (e, op, ov) = nb[k - 1];
        if counts(entity, pos, e, op, p) {
            (sx + ov.x.bits, sy + ov.y.bits)
        } else {
            (sx, sy)
        }
    }
}

/// Sum of the positions of the counted neighbours among the first `k`.
pub open spec fn cohesion_sum(entity: u64, pos: FixedVec2, nb: Seq<Neighbor>, p: BoidsParams, k: int) -> (int, int)
    decreases k,
{
    if k <= 0 {
        (0, 0)
    } else {
        let (sx, sy) = cohesion_sum(entity, pos, nb, p, k - 1);
        let (e, op, ov) = nb[k - 1];
        if counts(entity, pos, e, op, p) {
            (sx + op.x.bits, sy + op.y.bits)
        } else {
            (sx, sy)
        }
    }
}

/// Number of counted neighbours among the first `k` that push.
pub open spec fn separation_count(entity: u64, pos: FixedVec2, nb: Seq<Neighbor>, p: BoidsParams, k: int) -> int
    decreases k,
{
    if k <= 0 {
        0
    } else {
        let (e, op, ov) = nb[k - 1];
        separation_count(entity, pos, nb, p, k - 1) + if counts(entity, pos, e, op, p) && separates(pos, op, p) {
            1int
        } else {
            0int
        }
    }
}

/// Sum of the pushes of the counted neighbours among the first `k`.
pub open spec fn separation_sum(entity: u64, pos: FixedVec2, nb: Seq<Neighbor>, p: BoidsParams, k: int) -> (int, int)
    decreases k,
{
    if k <= 0 {
        (0, 0)
    } else {
        let (sx, sy) = separation_sum(entity, pos, nb, p, k - 1);
        let (e, op, ov) = nb[k - 1];
        if counts(entity, pos, e, op, p) && separates(pos, op, p) {
            let (px, py) = push(pos, op, p);
            (sx + px, sy + py)
        } else {
            (sx, sy)
        }
    }
}

/// `(dx - vel, dy - vel)` scaled by `weight`.
pub open spec fn weighted(d: (int, int), vel: FixedVec2, weight: FixedNum) -> (int, int) {
    (fixed_mul_spec(d.0 - vel.x.bits, weight.bits as int), fixed_mul_spec(d.1 - vel.y.bits, weight.bits as int))
}

/// Alignment: toward the average velocity of the `n` counted neighbours,
/// summing to `a`; zero unless the weight is positive.
pub open spec fn alignment_part(a: (int, int), n: int, vel: FixedVec2, p: BoidsParams) -> (int, int) {
    if p.alignment_weight.bits > 0 {
        let avg = (fixed_div_spec(a.0, n * ONE_BITS), fixed_div_spec(a.1, n * ONE_BITS));
        weighted(toward(avg.0, avg.1, p.max_speed), vel, p.alignment_weight)
    } else {
        (0, 0)
    }
}

/// Cohesion: toward the centre of the `n` counted neighbours, whose positions
/// sum to `c`; zero unless the weight is positive.
pub open spec fn cohesion_part(c: (int, int), n: int, pos: FixedVec2, vel: FixedVec2, p: BoidsParams) -> (int, int) {
    if p.cohesion_weight.bits > 0 {
        let com = (fixed_div_spec(c.0, n * ONE_BITS), fixed_div_spec(c.1, n * ONE_BITS));
        weighted(toward(com.0 - pos.x.bits, com.1 - pos.y.bits, p.max_speed), vel, p.cohesion_weight)
    } else {
        (0, 0)
    }
}

/// Separation: along the summed pushes `s` of `m` neighbours; zero unless the
/// weight is positive and some neighbour pushes.
pub open spec fn separation_part(s: (int, int), m: int, vel: FixedVec2, p: BoidsParams) -> (int, int) {
    if p.separation_weight.bits > 0 && m > 0 {
        if length_squared_spec(s.0, s.1) > 0 {
            weighted(toward(s.0, s.1, p.max_speed), vel, p.separation_weight)
        } else {
            (0, 0)
        }
    } else {
        (0, 0)
    }
}

/// Steering force on the unit `entity` at `pos` moving at `vel`, from its
/// neighbours `nb`: the weighted sum of alignment, cohesion and separation.
/// `None` where all weights are zero, or no neighbour counts.
pub open spec fn boids_force_spec(entity: u64, pos: FixedVec2, vel: FixedVec2, nb: Seq<Neighbor>, p: BoidsParams) -> Option<FixedVec2> {
    let k = nb.len() as int;
    let n = count_sum(entity, pos, nb, p, k);
    if p.separation_weight.bits == 0 && p.alignment_weight.bits == 0 && p.cohesion_weight.bits == 0 {
        None
    } else if n == 0 {
        None
    } else {
        let a = alignment_part(align_sum(entity, pos, nb, p, k), n, vel, p);
        let c = cohesion_part(cohesion_sum(entity, pos, nb, p, k), n, pos, vel, p);
        let s = separation_part(separation_sum(entity, pos, nb, p, k), separation_count(entity, pos, nb, p, k), vel, p);
        Some(FixedVec2 {
            x: FixedNum { bits: (a.0 + c.0 + s.0) as i64 },
            y: FixedNum { bits: (a.1 + c.1 + s.1) as i64 },
        })
    }
}

/// `pos2` and the neighbours `nb2` are `pos` and `nb` moved by `(ox, oy)`:
/// the same entities and velocities, every position shifted.
pub open spec fn translated(pos: FixedVec2, nb: Seq<Neighbor>, pos2: FixedVec2, nb2: Seq<Neighbor>, ox: int, oy: int) -> bool {
    &&& pos2.x.bits == pos.x.bits + ox
    &&& pos2.y.bits == pos.y.bits + oy
    &&& nb2.len() == nb.len()
    &&& forall|i: int|
        0 <= i < nb.len() ==> {
            let (e, op, ov) = #[trigger] nb[i];
            let (e2, op2, ov2) = nb2[i];
            &&& e2 == e
            &&& ov2 == ov
            &&& op2.x.bits == op.x.bits + ox
            &&& op2.y.bits == op.y.bits + oy
        }
}

proof fn lemma_count_nonneg(entity: u64, pos: FixedVec2, nb: Seq<Neighbor>, p: BoidsParams, k: int)
    ensures
        count_sum(entity, pos, nb, p, k) >= 0,
    decreases k,
{
    if k > 0 {
        lemma_count_nonneg(entity, pos, nb, p, k - 1);
    }
}

proof fn lemma_translated_sums(
    entity: u64,
    pos: FixedVec2,
    nb: Seq<Neighbor>,
    pos2: FixedVec2,
    nb2: Seq<Neighbor>,
    p: BoidsParams,
    ox: int,
    oy: int,
    k: int,
)
    requires
        translated(pos, nb, pos2, nb2, ox, oy),
        0 <= k <= nb.len(),
    ensures
        count_sum(entity, pos2, nb2, p, k) == count_sum(entity, pos, nb, p, k),
        align_sum(entity, pos2, nb2, p, k) == align_sum(entity, pos, nb, p, k),
        separation_count(entity, pos2, nb2, p, k) == separation_count(entity, pos, nb, p, k),
        separation_sum(entity, pos2, nb2, p, k) == separation_sum(entity, pos, nb, p, k),
        cohesion_sum(entity, pos2, nb2, p, k).0 == cohesion_sum(entity, pos, nb, p, k).0 + count_sum(entity, pos, nb, p, k) * ox,
        cohesion_sum(entity, pos2, nb2, p, k).1 == cohesion_sum(entity, pos, nb, p, k).1 + count_sum(entity, pos, nb, p, k) * oy,
    decreases k,
{
    if k > 0 {
        lemma_translated_sums(entity, pos, nb, pos2, nb2, p, ox, oy, k - 1);
        let (e, op, ov) = nb[k - 1];
        let (e2, op2, ov2) = nb2[k - 1];
        assert(offset(pos2, op2) == offset(pos, op));
        let c = count_sum(entity, pos, nb, p, k - 1);
        assert((c + 1) * ox == c * ox + ox) by (nonlinear_arith);
        assert((c + 1) * oy == c * oy + oy) by (nonlinear_arith);
    }
}

/// Moving the unit and all its neighbours by the same offset leaves the
/// flocking force unchanged: every part of it (cohesion toward the
/// neighbours' centre, alignment, separation) depends on relative positions
/// alone.
pub proof fn law_boids_translation(
    entity: u64,
    pos: FixedVec2,
    vel: FixedVec2,
    nb: Seq<Neighbor>,
    pos2: FixedVec2,
    nb2: Seq<Neighbor>,
    p: BoidsParams,
    ox: int,
    oy: int,
)
    requires
        translated(pos, nb, pos2, nb2, ox, oy),
    ensures
        boids_force_spec(entity, pos2, vel, nb2, p) == boids_force_spec(entity, pos, vel, nb, p),
{
    let k = nb.len() as int;
    lemma_translated_sums(entity, pos, nb, pos2, nb2, p, ox, oy, k);
    lemma_count_nonneg(entity, pos, nb, p, k);
    let n = count_sum(entity, pos, nb, p, k);
    if n > 0 {
        let c = cohesion_sum(entity, pos, nb, p, k);
        let d = n * ONE_BITS;
        assert(d > 0) by (nonlinear_arith)
            requires
                n > 0,
                d == n * ONE_BITS,
        ;
        assert((c.0 + n * ox) * ONE_BITS == c.0 * ONE_BITS + ox * d) by (nonlinear_arith)
            requires
                d == n * ONE_BITS,
        ;
        assert((c.1 + n * oy) * ONE_BITS == c.1 * ONE_BITS + oy * d) by (nonlinear_arith)
            requires
                d == n * ONE_BITS,
        ;
        vstd::arithmetic::div_mod::lemma_hoist_over_denominator(c.0 * ONE_BITS, ox, d as nat);
        vstd::arithmetic::div_mod::lemma_hoist_over_denominator(c.1 * ONE_BITS, oy, d as nat);
        assert(fixed_div_spec(c.0 + n * ox, d) == fixed_div_spec(c.0, d) + ox);
        assert(fixed_div_spec(c.1 + n * oy, d) == fixed_div_spec(c.1, d) + oy);
        let c2 = cohesion_sum(entity, pos2, nb2, p, k);
        assert(cohesion_part(c2, n, pos2, vel, p) == cohesion_part(c, n, pos, vel, p));
    }
    assert(nb2.len() as int == k);
    assert(count_sum(entity, pos2, nb2, p, nb2.len() as int) == n);
    assert(align_sum(entity, pos2, nb2, p, nb2.len() as int) == align_sum(entity, pos, nb, p, k));
    assert(separation_sum(entity, pos2, nb2, p, nb2.len() as int) == separation_sum(entity, pos, nb, p, k));
    assert(separation_count(entity, pos2, nb2, p, nb2.len() as int) == separation_count(entity, pos, nb, p, k));
    if n > 0 {
        let a = alignment_part(align_sum(entity, pos, nb, p, k), n, vel, p);
        let c = cohesion_part(cohesion_sum(entity, pos, nb, p, k), n, pos, vel, p);
        let sp = separation_part(separation_sum(entity, pos, nb, p, k), separation_count(entity, pos, nb, p, k), vel, p);
        let a2 = alignment_part(align_sum(entity, pos2, nb2, p, k), n, vel, p);
        let c2 = cohesion_part(cohesion_sum(entity, pos2, nb2, p, k), n, pos2, vel, p);
        let sp2 = separation_part(separation_sum(entity, pos2, nb2, p, k), separation_count(entity, pos2, nb2, p, k), vel, p);
        assert(a2 == a);
        assert(c2 == c);
        assert(sp2 == sp);
    }
}

proof fn lemma_isqrt(n: int) -> (r: int)
    requires
        n >= 0,
    ensures
        r >= 0,
        r * r <= n,
        (r + 1) * (r + 1) > n,
    decreases n,
{
    if n == 0 {
        0
    } else {
        let r = lemma_isqrt(n - 1);
        if (r + 1) * (r + 1) <= n {
            assert((r + 2) * (r + 2) > n) by (nonlinear_arith)
                requires
                    (r + 1) * (r + 1) <= n,
                    (r + 1) * (r + 1) > n - 1,
                    r >= 0,
            ;
            r + 1
        } else {
            r
        }
    }
}

/// The rounded-down square root of a non-negative number exists and is not negative.
proof fn lemma_sqrt_bits_nonneg(x: int)
    requires
        x >= 0,
    ensures
        sqrt_bits(x) >= 0,
{
    let r = lemma_isqrt(x * ONE_BITS);
    assert(is_sqrt_bits(x, r));
}

/// Each component of the velocity `toward` aims along has the sign of that
/// component of the direction (or is zero), for a non-negative speed.
proof fn lemma_toward_sign(x: int, y: int, ms: FixedNum)
    requires
        ms.bits >= 0,
    ensures
        (x > 0 ==> toward(x, y, ms).0 >= 0) && (x < 0 ==> toward(x, y, ms).0 <= 0) && (x == 0 ==> toward(x, y, ms).0 == 0),
        (y > 0 ==> toward(x, y, ms).1 >= 0) && (y < 0 ==> toward(x, y, ms).1 <= 0) && (y == 0 ==> toward(x, y, ms).1 == 0),
{
    let l = length_squared_spec(x, y);
    if l > 0 {
        lemma_sqrt_bits_nonneg(l);
        let len = sqrt_bits(l);
        let m = ms.bits as int;
        assert(fixed_mul_spec(0, m) == 0);
        if len > 0 {
            let ux = fixed_div_spec(x, len);
            let uy = fixed_div_spec(y, len);
            assert(x == 0 ==> ux == 0);
            assert(y == 0 ==> uy == 0);
            assert(fixed_mul_spec(0, m) == 0);
            assert(normalize_spec(x, y) == (ux, uy));
            assert(toward(x, y, ms) == (fixed_mul_spec(ux, m), fixed_mul_spec(uy, m)));
            assert(x > 0 ==> ux >= 0) by (nonlinear_arith)
                requires
                    len > 0,
                    ux == (x * 65536) / len,
            ;
            assert(x < 0 ==> ux <= 0) by (nonlinear_arith)
                requires
                    len > 0,
                    ux == (x * 65536) / len,
            ;
            assert(y > 0 ==> uy >= 0) by (nonlinear_arith)
                requires
                    len > 0,
                    uy == (y * 65536) / len,
            ;
            assert(y < 0 ==> uy <= 0) by (nonlinear_arith)
                requires
                    len > 0,
                    uy == (y * 65536) / len,
            ;
            assert(ux >= 0 ==> fixed_mul_spec(ux, m) >= 0) by (nonlinear_arith)
                requires
                    m >= 0,
                    fixed_mul_spec(ux, m) == (ux * m) / 65536,
            ;
            assert(ux <= 0 ==> fixed_mul_spec(ux, m) <= 0) by (nonlinear_arith)
                requires
                    m >= 0,
                    fixed_mul_spec(ux, m) == (ux * m) / 65536,
            ;
            assert(uy >= 0 ==> fixed_mul_spec(uy, m) >= 0) by (nonlinear_arith)
                requires
                    m >= 0,
                    fixed_mul_spec(uy, m) == (uy * m) / 65536,
            ;
            assert(uy <= 0 ==> fixed_mul_spec(uy, m) <= 0) by (nonlinear_arith)
                requires
                    m >= 0,
                    fixed_mul_spec(uy, m) == (uy * m) / 65536,
            ;
        }
    }
}

/// Cohesion steers toward the neighbours' centre: for a unit at rest, each
/// component of the cohesion force has the sign of that component of the
/// offset from `pos` to the centre of the `n` counted neighbours whose
/// positions sum to `c` (or is zero), for a positive weight and a
/// non-negative speed.
pub proof fn law_cohesion_toward_centre(c: (int, int), n: int, pos: FixedVec2, p: BoidsParams)
    requires
        n > 0,
        p.cohesion_weight.bits > 0,
        p.max_speed.bits >= 0,
    ensures
        ({
            let centre_x = fixed_div_spec(c.0, n * ONE_BITS);
            let centre_y = fixed_div_spec(c.1, n * ONE_BITS);
            let rest = FixedVec2 { x: FixedNum { bits: 0 }, y: FixedNum { bits: 0 } };
            let f = cohesion_part(c, n, pos, rest, p);
            &&& (centre_x > pos.x.bits ==> f.0 >= 0)
            &&& (centre_x < pos.x.bits ==> f.0 <= 0)
            &&& (centre_x == pos.x.bits ==> f.0 == 0)
            &&& (centre_y > pos.y.bits ==> f.1 >= 0)
            &&& (centre_y < pos.y.bits ==> f.1 <= 0)
            &&& (centre_y == pos.y.bits ==> f.1 == 0)
        }),
{
    let dx = fixed_div_spec(c.0, n * ONE_BITS) - pos.x.bits;
    let dy = fixed_div_spec(c.1, n * ONE_BITS) - pos.y.bits;
    lemma_toward_sign(dx, dy, p.max_speed);
    let t = toward(dx, dy, p.max_speed);
    let w = p.cohesion_weight.bits as int;
    assert(t.0 >= 0 ==> fixed_mul_spec(t.0 - 0, w) >= 0) by (nonlinear_arith)
        requires
            w > 0,
            fixed_mul_spec(t.0 - 0, w) == ((t.0 - 0) * w) / 65536,
    ;
    assert(t.0 <= 0 ==> fixed_mul_spec(t.0 - 0, w) <= 0) by (nonlinear_arith)
        requires
            w > 0,
            fixed_mul_spec(t.0 - 0, w) == ((t.0 - 0) * w) / 65536,
    ;
    assert(t.1 >= 0 ==> fixed_mul_spec(t.1 - 0, w) >= 0) by (nonlinear_arith)
        requires
            w > 0,
            fixed_mul_spec(t.1 - 0, w) == ((t.1 - 0) * w) / 65536,
    ;
    assert(t.1 <= 0 ==> fixed_mul_spec(t.1 - 0, w) <= 0) by (nonlinear_arith)
        requires
            w > 0,
            fixed_mul_spec(t.1 - 0, w) == ((t.1 - 0) * w) / 65536,
    ;
}

/// Bound of one push, in bits.
pub const PUSH_LIMIT: i64 = 0x2000_0000_0001;

/// Bound of one weighted steering part, in bits.
pub const PART_LIMIT: i64 = 0x400_0000_0000_0001;

proof fn lemma_square_within(r: int)
    requires
        -PHYS_LIMIT <= r <= PHYS_LIMIT,
    ensures
        0 <= fixed_mul_spec(r, r) <= 0x100_0000_0000_0000,
{
    assert(0 <= r * r <= 0x100_0000_0000_0000_0000) by (nonlinear_arith)
        requires
            -0x10_0000_0000 <= r <= 0x10_0000_0000,
    ;
    lemma_mul_within(r, r, 0x100_0000_0000_0000_0000);
    vstd::arithmetic::div_mod::lemma_div_is_ordered(0, r * r, 65536);
    assert(0x100_0000_0000_0000_0000int / 65536 == 0x100_0000_0000_0000int);
}

/// An average of `n` values each within `b` lies within `b`.
proof fn lemma_average_within(s: int, n: int, b: int)
    requires
        n >= 1,
        b >= 0,
        -(n * b) <= s <= n * b,
    ensures
        -b <= fixed_div_spec(s, n * ONE_BITS) <= b,
{
    let d = n * ONE_BITS;
    assert(d > 0) by (nonlinear_arith)
        requires
            n >= 1,
            d == n * ONE_BITS,
    ;
    assert(-(d * b) <= s * ONE_BITS <= d * b) by (nonlinear_arith)
        requires
            -(n * b) <= s <= n * b,
            d == n * ONE_BITS,
    ;
    vstd::arithmetic::div_mod::lemma_div_is_ordered(s * ONE_BITS, d * b, d);
    vstd::arithmetic::div_mod::lemma_div_is_ordered(-(d * b), s * ONE_BITS, d);
    vstd::arithmetic::div_mod::lemma_div_multiples_vanish(b, d);
    vstd::arithmetic::div_mod::lemma_div_multiples_vanish(-b, d);
    assert(d * (-b) == -(d * b)) by (nonlinear_arith);
}

/// The push from a neighbour at offset `d`, as `push_from` says.
fn push_exec(d: FixedVec2, d2: FixedNum, sr2: FixedNum) -> (r: FixedVec2)
    requires
        -2 * COORD_LIMIT <= d.x.bits <= 2 * COORD_LIMIT,
        -2 * COORD_LIMIT <= d.y.bits <= 2 * COORD_LIMIT,
        d2.bits == length_squared_spec(d.x.bits as int, d.y.bits as int),
        d2.bits > 0,
        0 <= sr2.bits <= 0x100_0000_0000_0000,
    ensures
        (r.x.bits as int, r.y.bits as int) == push_from(d.x.bits as int, d.y.bits as int, d2.bits as int, sr2.bits as int),
        -PUSH_LIMIT <= r.x.bits <= PUSH_LIMIT,
        -PUSH_LIMIT <= r.y.bits <= PUSH_LIMIT,
{
    if d2.bits > CLOSE_DIST_SQ_BITS {
        proof {
            let x = sr2.bits * ONE_BITS;
            assert(0 <= x <= 0x100_0000_0000_0000_0000) by (nonlinear_arith)
                requires
                    x == sr2.bits * ONE_BITS,
                    0 <= sr2.bits <= 0x100_0000_0000_0000,
            ;
            vstd::arithmetic::div_mod::lemma_div_is_ordered_by_denominator(x, CLOSE_DIST_SQ_BITS as int, d2.bits as int);
            vstd::arithmetic::div_mod::lemma_div_is_ordered(x, 0x100_0000_0000_0000_0000, CLOSE_DIST_SQ_BITS as int);
            vstd::arithmetic::div_mod::lemma_div_is_ordered(0, x, d2.bits as int);
        }
        let strength = sr2.div(d2);
        let capped = if strength.bits < MAX_SEPARATION_BITS { strength } else { FixedNum::from_bits(MAX_SEPARATION_BITS) };
        proof {
            assert(-0x2000_0000_0000_0000 <= d.x.bits * capped.bits <= 0x2000_0000_0000_0000) by (nonlinear_arith)
                requires
                    -0x40_0000_0000 <= d.x.bits <= 0x40_0000_0000,
                    0 <= capped.bits <= 6553600,
            ;
            assert(-0x2000_0000_0000_0000 <= d.y.bits * capped.bits <= 0x2000_0000_0000_0000) by (nonlinear_arith)
                requires
                    -0x40_0000_0000 <= d.y.bits <= 0x40_0000_0000,
                    0 <= capped.bits <= 6553600,
            ;
            lemma_mul_within(d.x.bits as int, capped.bits as int, 0x2000_0000_0000_0000);
            lemma_mul_within(d.y.bits as int, capped.bits as int, 0x2000_0000_0000_0000);
        }
        FixedVec2::new(d.x.mul(capped), d.y.mul(capped))
    } else {
        let u = d.normalize();
        proof {
            assert(-0x2000_0000_0000 <= u.x.bits * MAX_SEPARATION_BITS <= 0x2000_0000_0000) by (nonlinear_arith)
                requires
                    -0x2_0000 <= u.x.bits <= 0x2_0000,
            ;
            assert(-0x2000_0000_0000 <= u.y.bits * MAX_SEPARATION_BITS <= 0x2000_0000_0000) by (nonlinear_arith)
                requires
                    -0x2_0000 <= u.y.bits <= 0x2_0000,
            ;
            lemma_mul_within(u.x.bits as int, MAX_SEPARATION_BITS as int, 0x2000_0000_0000);
            lemma_mul_within(u.y.bits as int, MAX_SEPARATION_BITS as int, 0x2000_0000_0000);
        }
        let cap = FixedNum::from_bits(MAX_SEPARATION_BITS);
        FixedVec2::new(u.x.mul(cap), u.y.mul(cap))
    }
}

/// `(d - vel) * weight`, as `weighted` says.
fn weighted_exec(d: FixedVec2, vel: FixedVec2, weight: FixedNum) -> (r: FixedVec2)
    requires
        -TOWARD_LIMIT <= d.x.bits <= TOWARD_LIMIT,
        -TOWARD_LIMIT <= d.y.bits <= TOWARD_LIMIT,
        phys_ok(vel),
        num_ok(weight),
    ensures
        (r.x.bits as int, r.y.bits as int) == weighted((d.x.bits as int, d.y.bits as int), vel, weight),
        -PART_LIMIT <= r.x.bits <= PART_LIMIT,
        -PART_LIMIT <= r.y.bits <= PART_LIMIT,
{
    let ex = d.x.sub(vel.x);
    let ey = d.y.sub(vel.y);
    proof {
        assert(-0x400_0000_0000_0000_0000 <= ex.bits * weight.bits <= 0x400_0000_0000_0000_0000) by (nonlinear_arith)
            requires
                -0x40_0000_0000 <= ex.bits <= 0x40_0000_0000,
                -0x10_0000_0000 <= weight.bits <= 0x10_0000_0000,
        ;
        assert(-0x400_0000_0000_0000_0000 <= ey.bits * weight.bits <= 0x400_0000_0000_0000_0000) by (nonlinear_arith)
            requires
                -0x40_0000_0000 <= ey.bits <= 0x40_0000_0000,
                -0x10_0000_0000 <= weight.bits <= 0x10_0000_0000,
        ;
        lemma_mul_within(ex.bits as int, weight.bits as int, 0x400_0000_0000_0000_0000);
        lemma_mul_within(ey.bits as int, weight.bits as int, 0x400_0000_0000_0000_0000);
    }
    FixedVec2::new(ex.mul(weight), ey.mul(weight))
}

/// The summed pushes lie within the range that normalising accepts.
pub open spec fn pushes_in_range(entity: u64, pos: FixedVec2, nb: Seq<Neighbor>, p: BoidsParams) -> bool {
    let (sx, sy) = separation_sum(entity, pos, nb, p, nb.len() as int);
    -2 * COORD_LIMIT <= sx <= 2 * COORD_LIMIT && -2 * COORD_LIMIT <= sy <= 2 * COORD_LIMIT
}

/// Steering force on the unit `entity` at `pos` moving at `vel` from its
/// cached neighbours, as `boids_force_spec` says.
pub fn boids_force(entity: u64, pos: FixedVec2, vel: FixedVec2, neighbors: &[Neighbor], p: &BoidsParams) -> (r: Option<FixedVec2>)
    requires
        pos.in_range(),
        phys_ok(vel),
        neighbors_ok(neighbors@),
        params_ok(*p),
        pushes_in_range(entity, pos, neighbors@, *p),
    ensures
        r == boids_force_spec(entity, pos, vel, neighbors@, *p),
{
    if p.separation_weight.bits == 0 && p.alignment_weight.bits == 0 && p.cohesion_weight.bits == 0 {
        return None;
    }
    if neighbors.len() == 0 {
        return None;
    }
    proof {
        lemma_square_within(p.neighbor_radius.bits as int);
        lemma_square_within(p.separation_radius.bits as int);
    }
    let nr2 = p.neighbor_radius.mul(p.neighbor_radius);
    let sr2 = p.separation_radius.mul(p.separation_radius);
    let mut ax: i64 = 0;
    let mut ay: i64 = 0;
    let mut cx: i64 = 0;
    let mut cy: i64 = 0;
    let mut sx: i64 = 0;
    let mut sy: i64 = 0;
    let mut n: i64 = 0;
    let mut m: i64 = 0;
    let mut i: usize = 0;
    while i < neighbors.len()
        invariant
            i <= neighbors@.len(),
            neighbors_ok(neighbors@),
            pos.in_range(),
            params_ok(*p),
            nr2.bits == fixed_mul_spec(p.neighbor_radius.bits as int, p.neighbor_radius.bits as int),
            sr2.bits == fixed_mul_spec(p.separation_radius.bits as int, p.separation_radius.bits as int),
            0 <= sr2.bits <= 0x100_0000_0000_0000,
            n == count_sum(entity, pos, neighbors@, *p, i as int),
            m == separation_count(entity, pos, neighbors@, *p, i as int),
            (ax as int, ay as int) == align_sum(entity, pos, neighbors@, *p, i as int),
            (cx as int, cy as int) == cohesion_sum(entity, pos, neighbors@, *p, i as int),
            (sx as int, sy as int) == separation_sum(entity, pos, neighbors@, *p, i as int),
            0 <= m <= n <= i,
            -(n * PHYS_LIMIT) <= ax <= n * PHYS_LIMIT,
            -(n * PHYS_LIMIT) <= ay <= n * PHYS_LIMIT,
            -(n * COORD_LIMIT) <= cx <= n * COORD_LIMIT,
            -(n * COORD_LIMIT) <= cy <= n * COORD_LIMIT,
            -(m * PUSH_LIMIT) <= sx <= m * PUSH_LIMIT,
            -(m * PUSH_LIMIT) <= sy <= m * PUSH_LIMIT,
        decreases neighbors@.len() - i,
    {
        let (e, op, ov) = neighbors[i];
        proof {
            assert(neighbors@[i as int] == (e, op, ov));
        }
        let d = pos.sub(op);
        let d2 = d.length_squared();
        if e != entity && d2.le(nr2) {
            ax = ax + ov.x.bits;
            ay = ay + ov.y.bits;
            cx = cx + op.x.bits;
            cy = cy + op.y.bits;
            n = n + 1;
            if d2.lt(sr2) && d2.bits > 0 {
                let pv = push_exec(d, d2, sr2);
                sx = sx + pv.x.bits;
                sy = sy + pv.y.bits;
                m = m + 1;
            }
        }
        i = i + 1;
    }
    if n == 0 {
        return None;
    }
    proof {
        lemma_average_within(ax as int, n as int, PHYS_LIMIT as int);
        lemma_average_within(ay as int, n as int, PHYS_LIMIT as int);
        lemma_average_within(cx as int, n as int, COORD_LIMIT as int);
        lemma_average_within(cy as int, n as int, COORD_LIMIT as int);
    }
    let nf = FixedNum::from_bits(n * ONE_BITS);
    let zero = FixedVec2::new(FixedNum::zero(), FixedNum::zero());
    let a = if p.alignment_weight.bits > 0 {
        let avg = FixedVec2::new(FixedNum::from_bits(ax).div(nf), FixedNum::from_bits(ay).div(nf));
        weighted_exec(toward_velocity(avg, p.max_speed), vel, p.alignment_weight)
    } else {
        zero
    };
    let c = if p.cohesion_weight.bits > 0 {
        let com = FixedVec2::new(FixedNum::from_bits(cx).div(nf), FixedNum::from_bits(cy).div(nf));
        let dir = FixedVec2::new(com.x.sub(pos.x), com.y.sub(pos.y));
        weighted_exec(toward_velocity(dir, p.max_speed), vel, p.cohesion_weight)
    } else {
        zero
    };
    let s = if p.separation_weight.bits > 0 && m > 0 {
        let sv = FixedVec2::new(FixedNum::from_bits(sx), FixedNum::from_bits(sy));
        if sv.length_squared().bits > 0 {
            weighted_exec(toward_velocity(sv, p.max_speed), vel, p.separation_weight)
        } else {
            zero
        }
    } else {
        zero
    };
    Some(FixedVec2::new(
        FixedNum::from_bits(a.x.bits + c.x.bits + s.x.bits),
        FixedNum::from_bits(a.y.bits + c.y.bits + s.y.bits),
    ))
}

/// Velocity after one tick of steering: `vel + force * delta`, brought back
/// to `max_speed` along its direction where it is faster.
pub open spec fn steer_spec(vel: FixedVec2, force: FixedVec2, delta: FixedNum, max_speed: FixedNum) -> FixedVec2 {
    let vx = vel.x.bits + fixed_mul_spec(force.x.bits as int, delta.bits as int);
    let vy = vel.y.bits + fixed_mul_spec(force.y.bits as int, delta.bits as int);
    if length_squared_spec(vx, vy) > fixed_mul_spec(max_speed.bits as int, max_speed.bits as int) {
        let (ux, uy) = normalize_spec(vx, vy);
        FixedVec2 {
            x: FixedNum { bits: fixed_mul_spec(ux, max_speed.bits as int) as i64 },
            y: FixedNum { bits: fixed_mul_spec(uy, max_speed.bits as int) as i64 },
        }
    } else {
        FixedVec2 { x: FixedNum { bits: vx as i64 }, y: FixedNum { bits: vy as i64 } }
    }
}

/// Applies a steering force for one tick of length `delta`, as `steer_spec`
/// says.
pub fn apply_steering(vel: FixedVec2, force: FixedVec2, delta: FixedNum, max_speed: FixedNum) -> (r: FixedVec2)
    requires
        phys_ok(vel),
        num_ok(max_speed),
        -2 * COORD_LIMIT <= vel.x.bits + fixed_mul_spec(force.x.bits as int, delta.bits as int) <= 2 * COORD_LIMIT,
        -2 * COORD_LIMIT <= vel.y.bits + fixed_mul_spec(force.y.bits as int, delta.bits as int) <= 2 * COORD_LIMIT,
    ensures
        r == steer_spec(vel, force, delta, max_speed),
{
    let v = FixedVec2::new(vel.x.add(force.x.mul(delta)), vel.y.add(force.y.mul(delta)));
    proof {
        lemma_square_within(max_speed.bits as int);
    }
    let max_sq = max_speed.mul(max_speed);
    if v.length_squared().bits > max_sq.bits {
        let r = toward_velocity(v, max_speed);
        proof {
            assert(length_squared_spec(v.x.bits as int, v.y.bits as int) > 0) by {
                lemma_square_within(max_speed.bits as int);
            }
        }
        r
    } else {
        v
    }
}

proof fn lemma_sums_prefix(entity: u64, pos: FixedVec2, nb: Seq<Neighbor>, extra: Neighbor, p: BoidsParams, k: int)
    requires
        0 <= k <= nb.len(),
    ensures
        count_sum(entity, pos, nb.push(extra), p, k) == count_sum(entity, pos, nb, p, k),
        separation_count(entity, pos, nb.push(extra), p, k) == separation_count(entity, pos, nb, p, k),
        align_sum(entity, pos, nb.push(extra), p, k) == align_sum(entity, pos, nb, p, k),
        cohesion_sum(entity, pos, nb.push(extra), p, k) == cohesion_sum(entity, pos, nb, p, k),
        separation_sum(entity, pos, nb.push(extra), p, k) == separation_sum(entity, pos, nb, p, k),
    decreases k,
{
    if k > 0 {
        lemma_sums_prefix(entity, pos, nb, extra, p, k - 1);
        assert(nb.push(extra)[k - 1] == nb[k - 1]);
    }
}

/// A neighbour that does not count (the unit itself, or an entity farther
/// than the neighbour radius) changes nothing: with it appended to the list,
/// the steering force is what it was.
pub proof fn law_boids_ignore_uncounted(
    entity: u64,
    pos: FixedVec2,
    vel: FixedVec2,
    nb: Seq<Neighbor>,
    extra: Neighbor,
    p: BoidsParams,
)
    requires
        ({
            let (e, op, ov) = extra;
            !counts(entity, pos, e, op, p)
        }),
    ensures
        boids_force_spec(entity, pos, vel, nb.push(extra), p) == boids_force_spec(entity, pos, vel, nb, p),
{
    let k = nb.len() as int;
    lemma_sums_prefix(entity, pos, nb, extra, p, k);
    assert(nb.push(extra)[k] == extra);
}

} // verus!
