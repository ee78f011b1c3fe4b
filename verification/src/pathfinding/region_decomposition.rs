//! Cutting a cluster into convex rectangular regions: obstacles are dilated,
//! each row is cut into maximal walkable strips, and strips with the same
//! column span on consecutive rows are stacked into rectangles.
use vstd::prelude::*;
use crate::fixed::{FixedNum, FixedVec2, ONE_BITS, HALF_BITS, COORD_LIMIT, fixed_mul_spec};
use vstd::arithmetic::div_mod::lemma_div_is_ordered;
use crate::flow_field::{FlowField, OBSTACLE, in_grid, at8, lemma_idx_bounds};
use crate::pathfinding::types::{Rect, Region, RegionId, IslandId, RegionPortal, CLUSTER_SIZE, MAX_REGIONS};

verus! {

/// Obstacles are treated as this many cells wider when regions are cut.
pub const DILATION_RADIUS: usize = 1;

/// Whether some obstacle lies within `r` cells (in both axes) of `(x, y)`.
pub open spec fn blocked_near(cost: Seq<u8>, w: int, h: int, x: int, y: int, r: int) -> bool {
    exists|nx: int, ny: int|
        #![trigger at8(cost, w, nx, ny)]
        in_grid(w, h, nx, ny) && x - r <= nx <= x + r && y - r <= ny <= y + r && at8(cost, w, nx, ny)
            == OBSTACLE
}

/// Whether `(x, y)` counts as walkable once obstacles are dilated by `r`.
pub open spec fn walkable_dilated(cost: Seq<u8>, w: int, h: int, x: int, y: int, r: int) -> bool {
    !blocked_near(cost, w, h, x, y, r)
}

/// Whether the cell is walkable after dilation, for the flow field's grid.
pub open spec fn ff_walkable(ff: &FlowField, x: int, y: int, r: int) -> bool {
    walkable_dilated(ff.cost_field@, ff.width as int, ff.height as int, x, y, r)
}

/// Whether `(x, y)` is walkable once every obstacle is grown by
/// `dilation_radius` cells in each direction.
pub fn is_tile_walkable_dilated(x: usize, y: usize, flow_field: &FlowField, dilation_radius: usize) -> (r: bool)
    requires
        flow_field.wf(),
        x < flow_field.width,
        y < flow_field.height,
        dilation_radius <= 0x1_0000,
        flow_field.width + dilation_radius <= usize::MAX,
        flow_field.height + dilation_radius <= usize::MAX,
    ensures
        r == ff_walkable(flow_field, x as int, y as int, dilation_radius as int),
{
    let w = flow_field.width;
    let h = flow_field.height;
    let ghost cost = flow_field.cost_field@;
    let ghost rr = dilation_radius as int;
    let y_lo = if y >= dilation_radius { y - dilation_radius } else { 0 };
    let y_hi = if y + dilation_radius < h { y + dilation_radius } else { h - 1 };
    let x_lo = if x >= dilation_radius { x - dilation_radius } else { 0 };
    let x_hi = if x + dilation_radius < w { x + dilation_radius } else { w - 1 };
    let mut ny = y_lo;
    while ny <= y_hi
        invariant
            flow_field.wf(),
            w == flow_field.width,
            h == flow_field.height,
            cost == flow_field.cost_field@,
            rr == dilation_radius as int,
            y_lo <= ny <= y_hi + 1,
            y_lo <= y_hi,
            x_lo <= x_hi,
            y_hi < h,
            x_hi < w,
            y_lo == (if y >= dilation_radius { y - dilation_radius } else { 0 }),
            y_hi == (if y + dilation_radius < h { y + dilation_radius } else { h - 1 }),
            x_lo == (if x >= dilation_radius { x - dilation_radius } else { 0 }),
            x_hi == (if x + dilation_radius < w { x + dilation_radius } else { w - 1 }),
            forall|nx: int, ny2: int|
                x_lo <= nx <= x_hi && y_lo <= ny2 < ny ==> #[trigger] at8(cost, w as int, nx, ny2) != OBSTACLE,
        decreases y_hi + 1 - ny,
    {
        let mut nx = x_lo;
        while nx <= x_hi
            invariant
                flow_field.wf(),
                w == flow_field.width,
                h == flow_field.height,
                cost == flow_field.cost_field@,
                x_lo <= nx <= x_hi + 1,
                x_hi < w,
                y_lo <= ny <= y_hi,
                rr == dilation_radius as int,
                y_lo == (if y >= dilation_radius { y - dilation_radius } else { 0 }),
                y_hi == (if y + dilation_radius < h { y + dilation_radius } else { h - 1 }),
                x_lo == (if x >= dilation_radius { x - dilation_radius } else { 0 }),
                x_hi == (if x + dilation_radius < w { x + dilation_radius } else { w - 1 }),
                y_hi < h,
                forall|nx2: int, ny2: int|
                    x_lo <= nx2 <= x_hi && y_lo <= ny2 < ny ==> #[trigger] at8(cost, w as int, nx2, ny2) != OBSTACLE,
                forall|nx2: int| x_lo <= nx2 < nx ==> #[trigger] at8(cost, w as int, nx2, ny as int) != OBSTACLE,
            decreases x_hi + 1 - nx,
        {
            proof {
                lemma_idx_bounds(w as int, h as int, nx as int, ny as int);
            }
            if flow_field.cost_field[ny * w + nx] == OBSTACLE {
                assert(at8(cost, w as int, nx as int, ny as int) == OBSTACLE);
                assert(blocked_near(cost, w as int, h as int, x as int, y as int, rr));
                return false;
            }
            nx = nx + 1;
        }
        ny = ny + 1;
    }
    proof {
        if blocked_near(cost, w as int, h as int, x as int, y as int, rr) {
            let (bx, by) = choose|nx: int, ny: int|
                #![trigger at8(cost, w as int, nx, ny)]
                in_grid(w as int, h as int, nx, ny) && x - rr <= nx <= x + rr && y - rr <= ny <= y + rr
                    && at8(cost, w as int, nx, ny) == OBSTACLE;
            assert(at8(cost, w as int, bx, by) != OBSTACLE);
        }
    }
    true
}

/// A maximal run of dilated-walkable cells `a..=b` on row `y` inside columns `min_x..max_x`.
pub open spec fn strip_ok(ff: &FlowField, r: int, min_x: int, max_x: int, s: (usize, usize, usize)) -> bool {
    let (y, a, b) = s;
    &&& min_x <= a <= b < max_x
    &&& forall|x: int| a <= x <= b ==> #[trigger] ff_walkable(ff, x, y as int, r)
    &&& (a == min_x || !ff_walkable(ff, a - 1, y as int, r))
    &&& (b + 1 == max_x || !ff_walkable(ff, b + 1, y as int, r))
}

/// Whether strip `s` covers cell `(x, y)`.
pub open spec fn strip_covers(s: (usize, usize, usize), x: int, y: int) -> bool {
    s.0 == y && s.1 <= x <= s.2
}

/// Strip `s` comes before strip `t` in row-major order, without overlap.
pub open spec fn strip_before(s: (usize, usize, usize), t: (usize, usize, usize)) -> bool {
    s.0 < t.0 || (s.0 == t.0 && s.2 < t.1)
}

/// `strips` lists, in row-major order, every maximal run of dilated-walkable
/// cells of the box `min_x..max_x` by `min_y..max_y`, and nothing else.
pub open spec fn strips_spec(
    ff: &FlowField,
    r: int,
    min_x: int,
    max_x: int,
    min_y: int,
    max_y: int,
    strips: Seq<(usize, usize, usize)>,
) -> bool {
    &&& forall|i: int|
        0 <= i < strips.len() ==> min_y <= (#[trigger] strips[i]).0 < max_y && strip_ok(ff, r, min_x, max_x, strips[i])
    &&& forall|i: int, j: int| 0 <= i < j < strips.len() ==> strip_before(#[trigger] strips[i], #[trigger] strips[j])
    &&& forall|x: int, y: int|
        min_x <= x < max_x && min_y <= y < max_y && #[trigger] ff_walkable(ff, x, y, r) ==> exists|i: int|
            0 <= i < strips.len() && strip_covers(#[trigger] strips[i], x, y)
}

/// Every maximal run of walkable cells (after dilating obstacles by
/// `dilation_radius`) on each row of the box `min_x..max_x` by `min_y..max_y`,
/// as `(row, first column, last column)`, in row-major order.
pub fn find_horizontal_strips_with_dilation(
    min_x: usize,
    max_x: usize,
    min_y: usize,
    max_y: usize,
    flow_field: &FlowField,
    dilation_radius: usize,
) -> (strips: Vec<(usize, usize, usize)>)
    requires
        flow_field.wf(),
        max_x <= flow_field.width,
        max_y <= flow_field.height,
        dilation_radius <= 0x1_0000,
        flow_field.width + dilation_radius <= usize::MAX,
        flow_field.height + dilation_radius <= usize::MAX,
        max_x < usize::MAX,
    ensures
        strips_spec(
            flow_field,
            dilation_radius as int,
            min_x as int,
            max_x as int,
            min_y as int,
            max_y as int,
            strips@,
        ),
{
    let ghost rr = dilation_radius as int;
    let ghost mx = min_x as int;
    let ghost xx = max_x as int;
    let mut strips: Vec<(usize, usize, usize)> = Vec::new();
    let mut y = min_y;
    while y < max_y
        invariant
            flow_field.wf(),
            max_x <= flow_field.width,
            max_y <= flow_field.height,
            dilation_radius <= 0x1_0000,
            flow_field.width + dilation_radius <= usize::MAX,
            flow_field.height + dilation_radius <= usize::MAX,
            max_x < usize::MAX,
            rr == dilation_radius as int,
            mx == min_x as int,
            xx == max_x as int,
            min_y <= y <= max_y || (min_y > max_y && y == min_y),
            forall|i: int|
                0 <= i < strips@.len() ==> min_y <= (#[trigger] strips@[i]).0 < y && strip_ok(
                    flow_field,
                    rr,
                    mx,
                    xx,
                    strips@[i],
                ),
            forall|i: int, j: int|
                0 <= i < j < strips@.len() ==> strip_before(#[trigger] strips@[i], #[trigger] strips@[j]),
            forall|x: int, y2: int|
                mx <= x < xx && min_y <= y2 < y && #[trigger] ff_walkable(flow_field, x, y2, rr) ==> exists|i: int|
                    0 <= i < strips@.len() && strip_covers(#[trigger] strips@[i], x, y2),
        decreases max_y - y,
    {
        let mut start: Option<usize> = None;
        let mut x = min_x;
        let ghost row_base = strips@.len();
        while x <= max_x
            invariant
                flow_field.wf(),
                max_x <= flow_field.width,
                max_y <= flow_field.height,
                dilation_radius <= 0x1_0000,
                flow_field.width + dilation_radius <= usize::MAX,
                flow_field.height + dilation_radius <= usize::MAX,
                max_x < usize::MAX,
                rr == dilation_radius as int,
                mx == min_x as int,
                xx == max_x as int,
                min_y <= y < max_y,
                min_x <= x <= max_x + 1 || (min_x > max_x && x == min_x),
                row_base <= strips@.len(),
                forall|i: int|
                    0 <= i < strips@.len() ==> min_y <= (#[trigger] strips@[i]).0 <= y && strip_ok(
                        flow_field,
                        rr,
                        mx,
                        xx,
                        strips@[i],
                    ),
                forall|i: int| 0 <= i < row_base ==> (#[trigger] strips@[i]).0 < y,
                forall|i: int| row_base <= i < strips@.len() ==> (#[trigger] strips@[i]).0 == y && strips@[i].2 < x,
                forall|i: int, j: int|
                    0 <= i < j < strips@.len() ==> strip_before(#[trigger] strips@[i], #[trigger] strips@[j]),
                forall|x2: int, y2: int|
                    mx <= x2 < xx && min_y <= y2 < y && #[trigger] ff_walkable(flow_field, x2, y2, rr) ==> exists|i: int|
                        0 <= i < strips@.len() && strip_covers(#[trigger] strips@[i], x2, y2),
                match start {
                    Some(a) => {
                        &&& min_x <= a < x <= max_x
                        &&& forall|x2: int| a <= x2 < x ==> #[trigger] ff_walkable(flow_field, x2, y as int, rr)
                        &&& (a == min_x || !ff_walkable(flow_field, a - 1, y as int, rr))
                        &&& forall|i: int| row_base <= i < strips@.len() ==> (#[trigger] strips@[i]).2 + 1 < a
                        &&& forall|x2: int|
                            mx <= x2 < a && #[trigger] ff_walkable(flow_field, x2, y as int, rr) ==> exists|i: int|
                                row_base <= i < strips@.len() && strip_covers(#[trigger] strips@[i], x2, y as int)
                    },
                    None => {
                        &&& (x == min_x || x > max_x || !ff_walkable(flow_field, x - 1, y as int, rr))
                        &&& forall|x2: int|
                            mx <= x2 < x && x2 < xx && #[trigger] ff_walkable(flow_field, x2, y as int, rr) ==> exists|i: int|
                                row_base <= i < strips@.len() && strip_covers(#[trigger] strips@[i], x2, y as int)
                    },
                },
            decreases max_x + 1 - x,
        {
            let walk = if x < max_x {
                is_tile_walkable_dilated(x, y, flow_field, dilation_radius)
            } else {
                false
            };
            match start {
                None => {
                    if walk {
                        proof {
                            assert forall|i: int| row_base <= i < strips@.len() implies (#[trigger] strips@[i]).2 + 1 < x by {
                                let s = strips@[i];
                                assert(strip_ok(flow_field, rr, mx, xx, s));
                                assert(ff_walkable(flow_field, s.2 as int, s.0 as int, rr));
                            }
                        }
                        start = Some(x);
                    }
                },
                Some(a) => {
                    if !walk {
                        let ghost before = strips@;
                        strips.push((y, a, x - 1));
                        proof {
                            let n = before.len();
                            assert(strips@[n as int] == (y, a, (x - 1) as usize));
                            assert forall|i: int, j: int|
                                0 <= i < j < strips@.len() implies strip_before(
                                #[trigger] strips@[i],
                                #[trigger] strips@[j],
                            ) by {
                                if j == n {
                                    assert(strips@[i] == before[i]);
                                    if i >= row_base {
                                        assert(before[i].2 + 1 < a);
                                    }
                                } else {
                                    assert(strips@[i] == before[i] && strips@[j] == before[j]);
                                }
                            }
                            assert forall|x2: int|
                                mx <= x2 < x + 1 && x2 < xx && #[trigger] ff_walkable(flow_field, x2, y as int, rr) implies exists|i: int|
                                    row_base <= i < strips@.len() && strip_covers(#[trigger] strips@[i], x2, y as int) by {
                                if x2 >= a {
                                    assert(strip_covers(strips@[n as int], x2, y as int));
                                } else {
                                    let i = choose|i: int|
                                        row_base <= i < before.len() && strip_covers(#[trigger] before[i], x2, y as int);
                                    assert(strips@[i] == before[i]);
                                }
                            }
                            assert forall|x2: int, y2: int|
                                mx <= x2 < xx && min_y <= y2 < y && #[trigger] ff_walkable(flow_field, x2, y2, rr) implies exists|i: int|
                                    0 <= i < strips@.len() && strip_covers(#[trigger] strips@[i], x2, y2) by {
                                let i = choose|i: int| 0 <= i < before.len() && strip_covers(#[trigger] before[i], x2, y2);
                                assert(strips@[i] == before[i]);
                            }
                        }
                        start = None;
                    }
                },
            }
            x = x + 1;
        }
        proof {
            assert forall|x2: int, y2: int|
                mx <= x2 < xx && min_y <= y2 < y + 1 && #[trigger] ff_walkable(flow_field, x2, y2, rr) implies exists|i: int|
                    0 <= i < strips@.len() && strip_covers(#[trigger] strips@[i], x2, y2) by {
                if y2 == y {
                    let i = choose|i: int|
                        row_base <= i < strips@.len() && strip_covers(#[trigger] strips@[i], x2, y as int);
                }
            }
        }
        y = y + 1;
    }
    strips
}

// ---------------------------------------------------------------------------
// Stacking strips into rectangles
// ---------------------------------------------------------------------------

/// Whether some strip spans exactly columns `a..=b` on row `y`.
pub open spec fn has_span(strips: Seq<(usize, usize, usize)>, y: int, a: int, b: int) -> bool {
    exists|j: int| 0 <= j < strips.len() && #[trigger] strips[j].0 == y && strips[j].1 == a && strips[j].2 == b
}

/// Lowest row of the unbroken column of `a..=b` strips that reaches down from row `y`.
pub open spec fn stack_bottom(strips: Seq<(usize, usize, usize)>, y: nat, a: int, b: int) -> nat
    decreases y,
{
    if y > 0 && has_span(strips, y - 1, a, b) {
        stack_bottom(strips, (y - 1) as nat, a, b)
    } else {
        y
    }
}

/// Strip `i` has no strip of the same span directly below it.
pub open spec fn is_stack_head(strips: Seq<(usize, usize, usize)>, i: int) -> bool {
    !(strips[i].0 > 0 && has_span(strips, strips[i].0 - 1, strips[i].1 as int, strips[i].2 as int))
}

/// Rows `strips[i].0 + 1 ..= t` all hold a strip of the span of strip `i`, and row `t + 1` does not.
pub open spec fn stack_top(strips: Seq<(usize, usize, usize)>, i: int, t: int) -> bool {
    let s = strips[i];
    &&& s.0 <= t
    &&& forall|y: int| s.0 < y <= t ==> #[trigger] has_span(strips, y, s.1 as int, s.2 as int)
    &&& !has_span(strips, t + 1, s.1 as int, s.2 as int)
}

/// Bits of the local coordinate of the centre of cell `c` of a cluster starting at `origin`.
pub open spec fn local_center_bits(c: int, origin: int) -> int {
    (c - origin) * ONE_BITS + HALF_BITS
}

/// The rectangle through the cell centres of columns `s.1..=s.2`, rows `s.0..=t`,
/// in the local coordinates of a cluster whose first cell is `(csx, csy)`.
pub open spec fn stack_rect(s: (usize, usize, usize), t: int, csx: int, csy: int) -> Rect {
    Rect {
        min: FixedVec2 {
            x: FixedNum { bits: local_center_bits(s.1 as int, csx) as i64 },
            y: FixedNum { bits: local_center_bits(s.0 as int, csy) as i64 },
        },
        max: FixedVec2 {
            x: FixedNum { bits: local_center_bits(s.2 as int, csx) as i64 },
            y: FixedNum { bits: local_center_bits(t, csy) as i64 },
        },
    }
}

/// Row-major position of a strip's first cell.
pub open spec fn pos_lt(p: (int, int), q: (int, int)) -> bool {
    p.0 < q.0 || (p.0 == q.0 && p.1 < q.1)
}

/// Strips sorted in row-major order, each non-empty.
pub open spec fn strips_sorted(strips: Seq<(usize, usize, usize)>) -> bool {
    &&& forall|i: int| 0 <= i < strips.len() ==> (#[trigger] strips[i]).1 <= strips[i].2
    &&& forall|i: int, j: int| 0 <= i < j < strips.len() ==> strip_before(#[trigger] strips[i], #[trigger] strips[j])
}

/// `r` is the rectangle of the maximal stack headed by some strip.
pub open spec fn rect_is_stack(strips: Seq<(usize, usize, usize)>, r: Rect, csx: int, csy: int) -> bool {
    exists|i: int, t: int|
        #![trigger stack_top(strips, i, t)]
        0 <= i < strips.len() && is_stack_head(strips, i) && stack_top(strips, i, t) && r == stack_rect(
            strips[i],
            t,
            csx,
            csy,
        )
}

/// The rectangles are exactly the maximal vertical stacks of equal-span
/// strips, one per stack head, in the order of their heads.
pub open spec fn stacks_spec(strips: Seq<(usize, usize, usize)>, rects: Seq<Rect>, csx: int, csy: int) -> bool {
    &&& forall|k: int| 0 <= k < rects.len() ==> #[trigger] rect_is_stack(strips, rects[k], csx, csy)
    &&& forall|i: int|
        #![trigger is_stack_head(strips, i)]
        0 <= i < strips.len() && is_stack_head(strips, i) ==> exists|k: int, t: int|
            #![trigger rects[k], stack_top(strips, i, t)]
            0 <= k < rects.len() && stack_top(strips, i, t) && rects[k] == stack_rect(strips[i], t, csx, csy)
    &&& forall|k1: int, k2: int|
        0 <= k1 < k2 < rects.len() ==> pos_lt(
            ((#[trigger] rects[k1]).min.y.bits as int, rects[k1].min.x.bits as int),
            ((#[trigger] rects[k2]).min.y.bits as int, rects[k2].min.x.bits as int),
        )
}

proof fn lemma_bottom_le(strips: Seq<(usize, usize, usize)>, y: nat, a: int, b: int)
    ensures
        stack_bottom(strips, y, a, b) <= y,
        forall|r: int| stack_bottom(strips, y, a, b) <= r < y ==> #[trigger] has_span(strips, r, a, b),
        !(stack_bottom(strips, y, a, b) > 0 && has_span(strips, stack_bottom(strips, y, a, b) - 1, a, b)),
    decreases y,
{
    if y > 0 && has_span(strips, y - 1, a, b) {
        lemma_bottom_le(strips, (y - 1) as nat, a, b);
    }
}

/// An unbroken column of equal-span strips from row `y0` up to row `y1` has one bottom.
proof fn lemma_bottom_same(strips: Seq<(usize, usize, usize)>, y0: nat, y1: nat, a: int, b: int)
    requires
        y0 <= y1,
        forall|r: int| y0 <= r < y1 ==> #[trigger] has_span(strips, r, a, b),
    ensures
        stack_bottom(strips, y1, a, b) == stack_bottom(strips, y0, a, b),
    decreases y1,
{
    if y1 > y0 {
        assert(has_span(strips, y1 - 1, a, b));
        lemma_bottom_same(strips, y0, (y1 - 1) as nat, a, b);
    }
}

/// Sorted strips are ordered by position, and a position names one strip.
proof fn lemma_sorted_pos(strips: Seq<(usize, usize, usize)>, i: int, j: int)
    requires
        strips_sorted(strips),
        0 <= i < strips.len(),
        0 <= j < strips.len(),
    ensures
        i < j ==> pos_lt((strips[i].0 as int, strips[i].1 as int), (strips[j].0 as int, strips[j].1 as int)),
        i < j ==> strips[i].0 <= strips[j].0,
        (strips[i].0 == strips[j].0 && strips[i].1 == strips[j].1) ==> i == j,
{
    if i < j {
        assert(strip_before(strips[i], strips[j]));
    } else if j < i {
        assert(strip_before(strips[j], strips[i]));
    }
}

/// Bottom position of the stack through strip `j`.
pub open spec fn bottom_pos(strips: Seq<(usize, usize, usize)>, j: int) -> (int, int) {
    (stack_bottom(strips, strips[j].0 as nat, strips[j].1 as int, strips[j].2 as int) as int, strips[j].1 as int)
}

/// Whether position `p` comes before strip `i` (every position comes before the end).
pub open spec fn before_strip(strips: Seq<(usize, usize, usize)>, p: (int, int), i: int) -> bool {
    i >= strips.len() || pos_lt(p, (strips[i].0 as int, strips[i].1 as int))
}

/// The strip at the bottom of the stack through `j` exists and is a stack head.
proof fn lemma_bottom_strip(strips: Seq<(usize, usize, usize)>, j: int) -> (k: int)
    requires
        strips_sorted(strips),
        0 <= j < strips.len(),
    ensures
        0 <= k < strips.len(),
        strips[k].0 == bottom_pos(strips, j).0,
        strips[k].1 == strips[j].1,
        strips[k].2 == strips[j].2,
        is_stack_head(strips, k),
        k <= j,
{
    let s = strips[j];
    let yb = stack_bottom(strips, s.0 as nat, s.1 as int, s.2 as int);
    lemma_bottom_le(strips, s.0 as nat, s.1 as int, s.2 as int);
    if yb == s.0 {
        j
    } else {
        assert(has_span(strips, yb as int, s.1 as int, s.2 as int));
        let k = choose|k: int|
            0 <= k < strips.len() && #[trigger] strips[k].0 == yb && strips[k].1 == s.1 && strips[k].2 == s.2;
        if j < k {
            lemma_sorted_pos(strips, j, k);
        }
        k
    }
}

/// Stacks equal-span strips on consecutive rows into rectangles: each
/// not-yet-used strip grows upward through the strips of the same span on
/// the following rows; rectangles are in the local coordinates of the
/// cluster whose first cell is `(cluster_start_x, cluster_start_y)`.
pub fn merge_strips_into_rectangles(
    strips: Vec<(usize, usize, usize)>,
    cluster_start_x: usize,
    cluster_start_y: usize,
) -> (rects: Vec<Rect>)
    requires
        strips_sorted(strips@),
        forall|i: int|
            0 <= i < strips@.len() ==> cluster_start_x <= (#[trigger] strips@[i]).1 && strips@[i].2
                < cluster_start_x + 0x1_0000 && cluster_start_y <= strips@[i].0 < cluster_start_y + 0x1_0000,
        cluster_start_x + 0x1_0000 <= usize::MAX,
        cluster_start_y + 0x1_0000 <= usize::MAX,
    ensures
        stacks_spec(strips@, rects@, cluster_start_x as int, cluster_start_y as int),
{
    let ghost ss = strips@;
    let ghost csx = cluster_start_x as int;
    let ghost csy = cluster_start_y as int;
    let n = strips.len();
    let mut used: Vec<bool> = Vec::new();
    let mut k: usize = 0;
    while k < n
        invariant
            k <= n,
            used@.len() == k,
            forall|j: int| 0 <= j < k ==> !(#[trigger] used@[j]),
        decreases n - k,
    {
        used.push(false);
        k = k + 1;
    }
    let mut rects: Vec<Rect> = Vec::new();
    let ghost mut hs: Seq<(int, int)> = Seq::empty();
    let mut i: usize = 0;
    proof {
        assert forall|j: int| 0 <= j < n implies (#[trigger] used@[j]) == before_strip(ss, bottom_pos(ss, j), 0) by {
            let b = lemma_bottom_strip(ss, j);
            if 0 < b {
                lemma_sorted_pos(ss, 0, b);
            }
        }
    }
    while i < n
        invariant
            ss == strips@,
            n == ss.len(),
            csx == cluster_start_x as int,
            csy == cluster_start_y as int,
            strips_sorted(ss),
            forall|j: int|
                0 <= j < ss.len() ==> cluster_start_x <= (#[trigger] ss[j]).1 && ss[j].2 < cluster_start_x
                    + 0x1_0000 && cluster_start_y <= ss[j].0 < cluster_start_y + 0x1_0000,
            i <= n,
            cluster_start_x + 0x1_0000 <= usize::MAX,
            cluster_start_y + 0x1_0000 <= usize::MAX,
            used@.len() == n,
            forall|j: int| 0 <= j < n ==> (#[trigger] used@[j]) == before_strip(ss, bottom_pos(ss, j), i as int),
            rects@.len() == hs.len(),
            forall|q: int|
                0 <= q < hs.len() ==> 0 <= (#[trigger] hs[q]).0 < i && is_stack_head(ss, hs[q].0) && stack_top(
                    ss,
                    hs[q].0,
                    hs[q].1,
                ) && rects@[q] == stack_rect(ss[hs[q].0], hs[q].1, csx, csy),
            forall|q1: int, q2: int| 0 <= q1 < q2 < hs.len() ==> (#[trigger] hs[q1]).0 < (#[trigger] hs[q2]).0,
            forall|h: int|
                0 <= h < i && #[trigger] is_stack_head(ss, h) ==> exists|q: int| 0 <= q < hs.len() && (#[trigger] hs[q]).0 == h,
        decreases n - i,
    {
        let ghost used_before = used@;
        if used[i] {
            proof {
                let b = lemma_bottom_strip(ss, i as int);
                assert(pos_lt(bottom_pos(ss, i as int), (ss[i as int].0 as int, ss[i as int].1 as int)));
                assert(b != i);
                assert(!is_stack_head(ss, i as int)) by {
                    lemma_bottom_le(ss, ss[i as int].0 as nat, ss[i as int].1 as int, ss[i as int].2 as int);
                }
                assert forall|j: int| 0 <= j < n implies (#[trigger] used@[j]) == before_strip(ss, bottom_pos(ss, j), i + 1) by {
                    let bj = lemma_bottom_strip(ss, j);
                    lemma_sorted_pos(ss, bj, i as int);
                    if i + 1 < n {
                        lemma_sorted_pos(ss, i as int, i + 1);
                        lemma_sorted_pos(ss, bj, i + 1);
                    }
                }
            }
            i = i + 1;
        } else {
            let (y, x_start, x_end) = strips[i];
            let ghost a = x_start as int;
            let ghost b = x_end as int;
            proof {
                let bi = lemma_bottom_strip(ss, i as int);
                lemma_sorted_pos(ss, bi, i as int);
                assert(bi == i);
            }
            let mut rect_y_max = y;
            let mut j = i + 1;
            proof {
                assert forall|jj: int|
                    i + 1 <= jj < n && (#[trigger] ss[jj]).1 == a && ss[jj].2 == b implies ss[jj].0 > rect_y_max by {
                    lemma_sorted_pos(ss, i as int, jj);
                }
                assert(ss[i as int] == (y, x_start, x_end));
                assert forall|jj: int| 0 <= jj < n implies (#[trigger] used@[jj]) == (pos_lt(
                    bottom_pos(ss, jj),
                    (y as int, a),
                ) || (i < jj < i + 1 && ss[jj].1 == a && ss[jj].2 == b && ss[jj].0 <= rect_y_max)) by {
                    assert(used@[jj] == before_strip(ss, bottom_pos(ss, jj), i as int));
                }
            }
            while j < n
                invariant
                    ss == strips@,
                    n == ss.len(),
                    strips_sorted(ss),
                    forall|jj: int|
                        0 <= jj < ss.len() ==> cluster_start_x <= (#[trigger] ss[jj]).1 && ss[jj].2 < cluster_start_x
                            + 0x1_0000 && cluster_start_y <= ss[jj].0 < cluster_start_y + 0x1_0000,
                    i < n,
                    i < j <= n,
                    ss[i as int] == (y, x_start, x_end),
                    a == x_start as int,
                    b == x_end as int,
                    is_stack_head(ss, i as int),
                    y <= rect_y_max,
                    rect_y_max < cluster_start_y + 0x1_0000,
                    forall|r: int| y < r <= rect_y_max ==> #[trigger] has_span(ss, r, a, b),
                    forall|jj: int|
                        i < jj < j && (#[trigger] ss[jj]).1 == a && ss[jj].2 == b ==> ss[jj].0 != rect_y_max + 1,
                    forall|jj: int|
                        j <= jj < n && (#[trigger] ss[jj]).1 == a && ss[jj].2 == b ==> ss[jj].0 > rect_y_max,
                    cluster_start_y + 0x1_0000 <= usize::MAX,
                    used@.len() == n,
                    forall|jj: int|
                        0 <= jj < n ==> (#[trigger] used@[jj]) == (pos_lt(
                            bottom_pos(ss, jj),
                            (y as int, a),
                        ) || (i < jj < j && ss[jj].1 == a && ss[jj].2 == b && ss[jj].0 <= rect_y_max)),
                decreases n - j,
            {
                let (other_y, ox_start, ox_end) = strips[j];
                if ox_start == x_start && ox_end == x_end && other_y == rect_y_max + 1 {
                    proof {
                        if used@[j as int] {
                            lemma_bottom_same(ss, y as nat, other_y as nat, a, b);
                            lemma_bottom_le(ss, y as nat, a, b);
                        }
                    }
                    if !used[j] {
                        rect_y_max = other_y;
                        used.set(j, true);
                        proof {
                            assert forall|jj: int|
                                j + 1 <= jj < n && (#[trigger] ss[jj]).1 == a && ss[jj].2 == b implies ss[jj].0
                                > rect_y_max by {
                                lemma_sorted_pos(ss, j as int, jj);
                            }
                            assert(has_span(ss, other_y as int, a, b)) by {
                                assert(ss[j as int].0 == other_y);
                            }
                            assert forall|jj: int|
                                i < jj < j + 1 && (#[trigger] ss[jj]).1 == a && ss[jj].2 == b implies ss[jj].0
                                != rect_y_max + 1 by {
                                if jj < j {
                                    lemma_sorted_pos(ss, jj, j as int);
                                }
                            }
                        }
                    }
                } else {
                    proof {
                        if ox_start == x_start && ox_end == x_end {
                            lemma_sorted_pos(ss, i as int, j as int);
                        }
                    }
                }
                j = j + 1;
            }
            proof {
                assert(!has_span(ss, rect_y_max + 1, a, b)) by {
                    if has_span(ss, rect_y_max + 1, a, b) {
                        let jj = choose|jj: int|
                            0 <= jj < ss.len() && #[trigger] ss[jj].0 == rect_y_max + 1 && ss[jj].1 == a && ss[jj].2 == b;
                        if jj <= i {
                            lemma_sorted_pos(ss, jj, i as int);
                        }
                    }
                }
                assert(stack_top(ss, i as int, rect_y_max as int));
            }
            used.set(i, true);
            let local_x_start = x_start - cluster_start_x;
            let local_x_end = x_end - cluster_start_x;
            let local_y_min = y - cluster_start_y;
            let local_y_max = rect_y_max - cluster_start_y;
            let min_x = FixedNum { bits: (local_x_start as i64) * ONE_BITS + HALF_BITS };
            let max_x = FixedNum { bits: (local_x_end as i64) * ONE_BITS + HALF_BITS };
            let min_y = FixedNum { bits: (local_y_min as i64) * ONE_BITS + HALF_BITS };
            let max_y = FixedNum { bits: (local_y_max as i64) * ONE_BITS + HALF_BITS };
            rects.push(Rect::new(FixedVec2::new(min_x, min_y), FixedVec2::new(max_x, max_y)));
            proof {
                let old_hs = hs;
                hs = hs.push((i as int, rect_y_max as int));
                assert(rects@[old_hs.len() as int] == stack_rect(ss[i as int], rect_y_max as int, csx, csy));
                assert forall|jj: int| 0 <= jj < n implies (#[trigger] used@[jj]) == before_strip(
                    ss,
                    bottom_pos(ss, jj),
                    i + 1,
                ) by {
                    let bj = lemma_bottom_strip(ss, jj);
                    lemma_sorted_pos(ss, bj, i as int);
                    lemma_bottom_le(ss, ss[jj].0 as nat, a, b);
                    if i + 1 < n {
                        lemma_sorted_pos(ss, i as int, i + 1);
                        lemma_sorted_pos(ss, bj, i + 1);
                    }
                    if jj != i && ss[jj].1 == a && ss[jj].2 == b && y <= ss[jj].0 <= rect_y_max {
                        lemma_bottom_same(ss, y as nat, ss[jj].0 as nat, a, b);
                        lemma_bottom_le(ss, y as nat, a, b);
                    }
                    if bottom_pos(ss, jj) == (y as int, a) && ss[jj].2 == b {
                        lemma_bottom_le(ss, ss[jj].0 as nat, a, b);
                        if ss[jj].0 > rect_y_max {
                            assert(has_span(ss, rect_y_max + 1, a, b));
                        }
                    }
                }
                assert forall|q: int|
                    0 <= q < hs.len() implies 0 <= (#[trigger] hs[q]).0 < i + 1 && is_stack_head(ss, hs[q].0) && stack_top(
                    ss,
                    hs[q].0,
                    hs[q].1,
                ) && rects@[q] == stack_rect(ss[hs[q].0], hs[q].1, csx, csy) by {
                    if q < old_hs.len() {
                        assert(hs[q] == old_hs[q]);
                    }
                }
                assert forall|h: int|
                    0 <= h < i + 1 && #[trigger] is_stack_head(ss, h) implies exists|q: int|
                        0 <= q < hs.len() && (#[trigger] hs[q]).0 == h by {
                    if h == i {
                        assert(hs[old_hs.len() as int].0 == h);
                    } else {
                        let q = choose|q: int| 0 <= q < old_hs.len() && (#[trigger] old_hs[q]).0 == h;
                        assert(hs[q] == old_hs[q]);
                    }
                }
            }
            i = i + 1;
        }
    }
    proof {
        assert forall|k1: int, k2: int|
            0 <= k1 < k2 < rects@.len() implies pos_lt(
            ((#[trigger] rects@[k1]).min.y.bits as int, rects@[k1].min.x.bits as int),
            ((#[trigger] rects@[k2]).min.y.bits as int, rects@[k2].min.x.bits as int),
        ) by {
            assert(hs[k1].0 < hs[k2].0);
            lemma_sorted_pos(ss, hs[k1].0, hs[k2].0);
            let s1 = ss[hs[k1].0];
            let s2 = ss[hs[k2].0];
            assert(rects@[k1].min.y.bits == local_center_bits(s1.0 as int, csy));
            assert(rects@[k1].min.x.bits == local_center_bits(s1.1 as int, csx));
            assert(rects@[k2].min.y.bits == local_center_bits(s2.0 as int, csy));
            assert(rects@[k2].min.x.bits == local_center_bits(s2.1 as int, csx));
        }
        assert forall|k: int| 0 <= k < rects@.len() implies #[trigger] rect_is_stack(ss, rects@[k], csx, csy) by {
            assert(0 <= hs[k].0 < ss.len());
            assert(stack_top(ss, hs[k].0, hs[k].1));
        }
        assert forall|h: int|
            #![trigger is_stack_head(ss, h)]
            0 <= h < ss.len() && is_stack_head(ss, h) implies exists|k: int, t: int|
                #![trigger rects@[k], stack_top(ss, h, t)]
                0 <= k < rects@.len() && stack_top(ss, h, t) && rects@[k] == stack_rect(ss[h], t, csx, csy) by {
            let q = choose|q: int| 0 <= q < hs.len() && (#[trigger] hs[q]).0 == h;
            assert(rects@[q] == stack_rect(ss[h], hs[q].1, csx, csy));
            assert(stack_top(ss, h, hs[q].1));
        }
        assert(stacks_spec(ss, rects@, csx, csy));
    }
    rects
}

// ---------------------------------------------------------------------------
// Regions of a cluster
// ---------------------------------------------------------------------------

/// Corners of `r`, counter-clockwise from the bottom-left.
pub open spec fn rect_corners(r: Rect) -> Seq<FixedVec2> {
    seq![r.min, FixedVec2 { x: r.max.x, y: r.min.y }, r.max, FixedVec2 { x: r.min.x, y: r.max.y }]
}

/// The four corners of a rectangle, counter-clockwise from the bottom-left.
pub fn rect_to_vertices(rect: Rect) -> (r: Vec<FixedVec2>)
    ensures
        r@ == rect_corners(rect),
{
    let mut v: Vec<FixedVec2> = Vec::new();
    v.push(rect.min);
    v.push(FixedVec2::new(rect.max.x, rect.min.y));
    v.push(rect.max);
    v.push(FixedVec2::new(rect.min.x, rect.max.y));
    proof {
        assert(v@ =~= rect_corners(rect));
    }
    v
}

/// A rectangle safe for straight-line movement: neither side degenerate,
/// the long side at most ten times the short one (compared as a fixed-point
/// quotient rounded down), and an area of at least one cell.
pub open spec fn rect_well_shaped(r: Rect) -> bool {
    let w: int = r.max.x.bits - r.min.x.bits;
    let h: int = r.max.y.bits - r.min.y.bits;
    let short = if w <= h { w } else { h };
    let long = if w <= h { h } else { w };
    &&& short > 0
    &&& (long * ONE_BITS) / short <= 10 * ONE_BITS
    &&& (w * h) / (ONE_BITS as int) >= ONE_BITS
}

/// Whether a region with these corners and bounds is a well-shaped rectangle.
pub fn is_convex_region(vertices: &Vec<FixedVec2>, bounds: &Rect) -> (r: bool)
    requires
        bounds.min.in_range(),
        bounds.max.in_range(),
    ensures
        r == (vertices@.len() == 4 && rect_well_shaped(*bounds)),
{
    if vertices.len() != 4 {
        return false;
    }
    let w = bounds.max.x.bits - bounds.min.x.bits;
    let h = bounds.max.y.bits - bounds.min.y.bits;
    let short = if w <= h { w } else { h };
    let long = if w <= h { h } else { w };
    if short <= 0 {
        return false;
    }
    assert(0 < long <= 0x40_0000_0000);
    let long_wide: i128 = long as i128;
    let scaled: i128 = long_wide * 65536;
    let aspect = scaled / (short as i128);
    if aspect > 10 * (ONE_BITS as i128) {
        return false;
    }
    proof {
        assert(0 <= (w as int) * (h as int) <= 0x10_0000_0000_0000_0000_0000) by (nonlinear_arith)
            requires
                0 < w <= 0x40_0000_0000,
                0 < h <= 0x40_0000_0000,
        ;
    }
    let area = ((w as i128) * (h as i128)) / (ONE_BITS as i128);
    if area < ONE_BITS as i128 {
        return false;
    }
    true
}

/// The region built from the `k`-th rectangle of a cluster.
pub open spec fn region_from_rect(reg: Region, k: int, rect: Rect) -> bool {
    &&& reg.id == RegionId(k as u8)
    &&& reg.bounds == rect
    &&& reg.vertices@ == rect_corners(rect)
    &&& reg.island == IslandId(0)
    &&& reg.portals@.len() == 0
    &&& reg.is_dangerous == !rect_well_shaped(rect)
}

/// Cell box of cluster `(cx, cy)`, clipped to the grid: `(x0, x1, y0, y1)`, ends exclusive.
pub open spec fn cluster_box(ff: &FlowField, cx: int, cy: int) -> (int, int, int, int) {
    let x0 = cx * CLUSTER_SIZE;
    let y0 = cy * CLUSTER_SIZE;
    let x1 = if (cx + 1) * CLUSTER_SIZE <= ff.width { (cx + 1) * CLUSTER_SIZE } else { ff.width as int };
    let y1 = if (cy + 1) * CLUSTER_SIZE <= ff.height { (cy + 1) * CLUSTER_SIZE } else { ff.height as int };
    (x0, x1, y0, y1)
}

/// The rectangles of cluster `(cx, cy)`: the maximal stacks of the maximal
/// strips of its dilated-walkable cells, in local coordinates.
pub open spec fn cluster_rects(ff: &FlowField, cx: int, cy: int, rects: Seq<Rect>) -> bool {
    let (x0, x1, y0, y1) = cluster_box(ff, cx, cy);
    exists|strips: Seq<(usize, usize, usize)>|
        #[trigger] strips_spec(ff, DILATION_RADIUS as int, x0, x1, y0, y1, strips) && stacks_spec(
            strips,
            rects,
            x0,
            y0,
        )
}

/// Cuts cluster `cluster_id` into at most `MAX_REGIONS` rectangular regions
/// (see `cluster_rects`); a cluster outside the grid has none.
pub fn decompose_cluster_into_regions(cluster_id: (usize, usize), flow_field: &FlowField) -> (r: Vec<Region>)
    requires
        flow_field.wf(),
        flow_field.width < usize::MAX,
        flow_field.height < usize::MAX,
        cluster_id.0 * CLUSTER_SIZE + 0x2_0000 <= usize::MAX,
        cluster_id.1 * CLUSTER_SIZE + 0x2_0000 <= usize::MAX,
    ensures
        ({
            let (x0, x1, y0, y1) = cluster_box(flow_field, cluster_id.0 as int, cluster_id.1 as int);
            if x0 >= flow_field.width || y0 >= flow_field.height {
                r@.len() == 0
            } else {
                exists|rects: Seq<Rect>|
                    #[trigger] cluster_rects(flow_field, cluster_id.0 as int, cluster_id.1 as int, rects) && r@.len()
                        == (if rects.len() <= MAX_REGIONS { rects.len() } else { MAX_REGIONS as nat })
                        && forall|k: int| 0 <= k < r@.len() ==> region_from_rect(#[trigger] r@[k], k, rects[k])
            }
        }),
        forall|k: int| 0 <= k < r@.len() ==> (#[trigger] r@[k]).bounds.min.in_range() && r@[k].bounds.max.in_range(),
        r@.len() <= MAX_REGIONS,
{
    let (cx, cy) = cluster_id;
    let start_x = cx * CLUSTER_SIZE;
    let start_y = cy * CLUSTER_SIZE;
    let end_x = if (cx + 1) * CLUSTER_SIZE <= flow_field.width { (cx + 1) * CLUSTER_SIZE } else { flow_field.width };
    let end_y = if (cy + 1) * CLUSTER_SIZE <= flow_field.height { (cy + 1) * CLUSTER_SIZE } else { flow_field.height };
    if start_x >= flow_field.width || start_y >= flow_field.height {
        return Vec::new();
    }
    let strips = find_horizontal_strips_with_dilation(start_x, end_x, start_y, end_y, flow_field, DILATION_RADIUS);
    let ghost ss = strips@;
    proof {
        assert forall|i: int| 0 <= i < ss.len() implies (#[trigger] ss[i]).1 <= ss[i].2 by {
            assert(strip_ok(flow_field, DILATION_RADIUS as int, start_x as int, end_x as int, ss[i]));
        }
        assert forall|i: int| 0 <= i < ss.len() implies start_x <= (#[trigger] ss[i]).1 && ss[i].2 < start_x + 0x1_0000
            && start_y <= ss[i].0 < start_y + 0x1_0000 by {
            assert(strip_ok(flow_field, DILATION_RADIUS as int, start_x as int, end_x as int, ss[i]));
        }
    }
    let rects = merge_strips_into_rectangles(strips, start_x, start_y);
    let ghost rs = rects@;
    proof {
        let bx = cluster_box(flow_field, cx as int, cy as int);
        assert(bx == (start_x as int, end_x as int, start_y as int, end_y as int));
        assert(strips_spec(flow_field, DILATION_RADIUS as int, bx.0, bx.1, bx.2, bx.3, ss));
        assert(cluster_rects(flow_field, cx as int, cy as int, rs));
    }
    let mut regions: Vec<Region> = Vec::new();
    let mut i: usize = 0;
    while i < rects.len() && i < MAX_REGIONS
        invariant
            rs == rects@,
            i <= rects@.len(),
            i <= MAX_REGIONS,
            regions@.len() == i,
            forall|j: int| 0 <= j < ss.len() ==> start_x <= (#[trigger] ss[j]).1 && ss[j].2 < start_x + 0x1_0000
                && start_y <= ss[j].0 < start_y + 0x1_0000,
            stacks_spec(ss, rs, start_x as int, start_y as int),
            strips_sorted(ss),
            forall|k: int| 0 <= k < i ==> region_from_rect(#[trigger] regions@[k], k, rs[k]),
            forall|k: int| 0 <= k < i ==> (#[trigger] regions@[k]).bounds.min.in_range() && regions@[k].bounds.max.in_range(),
        decreases rects@.len() - i,
    {
        let rect = rects[i];
        proof {
            assert(rect_is_stack(ss, rs[i as int], start_x as int, start_y as int));
            let (h, t) = choose|h: int, t: int|
                #![trigger stack_top(ss, h, t)]
                0 <= h < ss.len() && is_stack_head(ss, h) && stack_top(ss, h, t) && rs[i as int] == stack_rect(
                    ss[h],
                    t,
                    start_x as int,
                    start_y as int,
                );
            assert(ss[h].1 <= ss[h].2);
            assert(has_span(ss, t, ss[h].1 as int, ss[h].2 as int) || t == ss[h].0);
            if t > ss[h].0 {
                let jt = choose|j: int|
                    0 <= j < ss.len() && #[trigger] ss[j].0 == t && ss[j].1 == ss[h].1 && ss[j].2 == ss[h].2;
                assert(ss[jt].0 < start_y + 0x1_0000);
            }
        }
        let vertices = rect_to_vertices(rect);
        let is_dangerous = !is_convex_region(&vertices, &rect);
        regions.push(Region {
            id: RegionId(i as u8),
            bounds: rect,
            vertices,
            island: IslandId(0),
            portals: Vec::new(),
            is_dangerous,
        });
        proof {
            assert forall|k: int| 0 <= k < i + 1 implies region_from_rect(#[trigger] regions@[k], k, rs[k]) by {
                if k == i {
                    assert(regions@[k].vertices@ == rect_corners(rect));
                }
            }
            assert forall|k: int| 0 <= k < i + 1 implies (#[trigger] regions@[k]).bounds.min.in_range() && regions@[k].bounds.max.in_range() by {
                if k == i {
                    assert(regions@[k].bounds == rect);
                }
            }
        }
        i = i + 1;
    }
    regions
}

// ---------------------------------------------------------------------------
// Locating points
// ---------------------------------------------------------------------------

/// Cross product, with each product rounded down, of edge `i` of the polygon
/// `v` and the vector from the edge's start to `p`.
pub open spec fn edge_cross(p: FixedVec2, v: Seq<FixedVec2>, i: int) -> int {
    let a = v[i];
    let b = v[(i + 1) % (v.len() as int)];
    let ex = b.x.bits - a.x.bits;
    let ey = b.y.bits - a.y.bits;
    let tx = p.x.bits - a.x.bits;
    let ty = p.y.bits - a.y.bits;
    fixed_mul_spec(ex, ty) - fixed_mul_spec(ey, tx)
}

/// Whether `p` lies on the same side of every edge of the polygon `v` (on an
/// edge counting as the non-negative side); a polygon needs three corners.
pub open spec fn in_convex_polygon(p: FixedVec2, v: Seq<FixedVec2>) -> bool {
    v.len() >= 3 && ((forall|i: int| 0 <= i < v.len() ==> #[trigger] edge_cross(p, v, i) >= 0) || (forall|i: int|
        0 <= i < v.len() ==> #[trigger] edge_cross(p, v, i) < 0))
}

/// Whether every corner of a polygon lies in range.
pub open spec fn corners_in_range(v: Seq<FixedVec2>) -> bool {
    forall|i: int| 0 <= i < v.len() ==> (#[trigger] v[i]).in_range()
}

fn fixed_mul_bounded(a: i64, b: i64) -> (r: i64)
    requires
        -2 * (COORD_LIMIT as int) <= a <= 2 * (COORD_LIMIT as int),
        -2 * (COORD_LIMIT as int) <= b <= 2 * (COORD_LIMIT as int),
    ensures
        r == fixed_mul_spec(a as int, b as int),
        -0x1000_0000_0000_0000 <= r <= 0x1000_0000_0000_0000,
{
    proof {
        assert(-0x1000_0000_0000_0000_0000 <= (a as int) * (b as int) <= 0x1000_0000_0000_0000_0000) by (nonlinear_arith)
            requires
                -0x40_0000_0000 <= a <= 0x40_0000_0000,
                -0x40_0000_0000 <= b <= 0x40_0000_0000,
        ;
    }
    proof {
        let q = (a as int) * (b as int);
        lemma_div_is_ordered(-0x1000_0000_0000_0000_0000, q, 65536);
        lemma_div_is_ordered(q, 0x1000_0000_0000_0000_0000, 65536);
        assert(-0x1000_0000_0000_0000_0000int / 65536 == -0x1000_0000_0000_0000);
        assert(0x1000_0000_0000_0000_0000int / 65536 == 0x1000_0000_0000_0000);
    }
    let r = FixedNum { bits: a }.mul(FixedNum { bits: b }).bits;
    r
}

/// Whether `point` lies inside the convex polygon `vertices` (see `in_convex_polygon`).
pub fn is_point_in_convex_polygon(point: FixedVec2, vertices: &Vec<FixedVec2>) -> (r: bool)
    requires
        point.in_range(),
        corners_in_range(vertices@),
    ensures
        r == in_convex_polygon(point, vertices@),
{
    let n = vertices.len();
    if n < 3 {
        return false;
    }
    let ghost v = vertices@;
    let mut sign: Option<bool> = None;
    let mut i: usize = 0;
    while i < n
        invariant
            n == v.len(),
            v == vertices@,
            n >= 3,
            point.in_range(),
            corners_in_range(v),
            i <= n,
            i == 0 <==> sign is None,
            sign == Some(true) ==> forall|j: int| 0 <= j < i ==> #[trigger] edge_cross(point, v, j) >= 0,
            sign == Some(false) ==> forall|j: int| 0 <= j < i ==> #[trigger] edge_cross(point, v, j) < 0,
        decreases n - i,
    {
        let a = vertices[i];
        let b = vertices[(i + 1) % n];
        let ex = b.x.bits - a.x.bits;
        let ey = b.y.bits - a.y.bits;
        let tx = point.x.bits - a.x.bits;
        let ty = point.y.bits - a.y.bits;
        let cross = fixed_mul_bounded(ex, ty) - fixed_mul_bounded(ey, tx);
        assert(cross == edge_cross(point, v, i as int));
        let positive = cross >= 0;
        match sign {
            None => {
                sign = Some(positive);
            },
            Some(s) => {
                if s != positive {
                    proof {
                        if s {
                            assert(edge_cross(point, v, 0) >= 0);
                        } else {
                            assert(edge_cross(point, v, 0) < 0);
                        }
                        assert(!in_convex_polygon(point, v));
                    }
                    return false;
                }
            },
        }
        i = i + 1;
    }
    proof {
        assert(sign is Some);
        if sign == Some(true) {
            assert(forall|j: int| 0 <= j < v.len() ==> #[trigger] edge_cross(point, v, j) >= 0);
        } else {
            let sv = sign->0;
            assert(!sv);
            assert(sign == Some(false));
            assert(forall|j: int| 0 <= j < v.len() ==> #[trigger] edge_cross(point, v, j) < 0);
        }
    }
    true
}

/// What `get_region_id` looks for: a region holding `p` in its bounds and,
/// unless it is a four-cornered rectangle, inside its polygon.
pub open spec fn region_holds(reg: Region, p: FixedVec2) -> bool {
    reg.bounds.contains_spec(p) && (reg.vertices@.len() == 4 || in_convex_polygon(p, reg.vertices@))
}

/// The region found for `p` among the first `count` slots: the id of the first
/// one that holds it.
pub open spec fn region_lookup_spec(regions: Seq<Option<Region>>, count: int, p: FixedVec2, r: Option<RegionId>) -> bool {
    match r {
        Some(id) => exists|i: int|
            0 <= i < count && #[trigger] regions[i] is Some && region_holds(regions[i]->0, p) && regions[i]->0.id == id
                && forall|j: int| 0 <= j < i && regions[j] is Some ==> !region_holds(#[trigger] regions[j]->0, p),
        None => forall|j: int| 0 <= j < count && #[trigger] regions[j] is Some ==> !region_holds(regions[j]->0, p),
    }
}

/// The id of the first of the first `region_count` regions that holds `point`
/// (cluster-local coordinates), if any.
pub fn get_region_id(regions: &Vec<Option<Region>>, region_count: usize, point: FixedVec2) -> (r: Option<RegionId>)
    requires
        region_count <= regions@.len(),
        point.in_range(),
        forall|i: int| 0 <= i < region_count && #[trigger] regions@[i] is Some ==> corners_in_range(regions@[i]->0.vertices@),
    ensures
        region_lookup_spec(regions@, region_count as int, point, r),
{
    let mut i: usize = 0;
    while i < region_count
        invariant
            region_count <= regions@.len(),
            point.in_range(),
            forall|k: int| 0 <= k < region_count && #[trigger] regions@[k] is Some ==> corners_in_range(regions@[k]->0.vertices@),
            i <= region_count,
            forall|j: int| 0 <= j < i && regions@[j] is Some ==> !region_holds(#[trigger] regions@[j]->0, point),
        decreases region_count - i,
    {
        match &regions[i] {
            Some(region) => {
                if region.bounds.contains(point) {
                    if region.vertices.len() == 4 {
                        return Some(region.id);
                    }
                    if is_point_in_convex_polygon(point, &region.vertices) {
                        return Some(region.id);
                    }
                }
            },
            None => {},
        }
        i = i + 1;
    }
    None
}

/// Local coordinates, relative to the cluster `(cx, cy)`, of the centre of grid cell `(gx, gy)`.
pub open spec fn local_of_cell(gx: int, gy: int, cx: int, cy: int) -> FixedVec2 {
    FixedVec2 {
        x: FixedNum { bits: local_center_bits(gx, cx * CLUSTER_SIZE) as i64 },
        y: FixedNum { bits: local_center_bits(gy, cy * CLUSTER_SIZE) as i64 },
    }
}

/// The world position in the local coordinates of cluster `cluster_id`: the
/// centre of the grid cell holding it, or `None` off the grid.
pub fn world_to_cluster_local(world_pos: FixedVec2, cluster_id: (usize, usize), flow_field: &FlowField) -> (r: Option<FixedVec2>)
    requires
        flow_field.geometry_ok(),
        world_pos.in_range(),
        cluster_id.0 * CLUSTER_SIZE <= 0x20_0000_0000,
        cluster_id.1 * CLUSTER_SIZE <= 0x20_0000_0000,
    ensures
        r == match flow_field.world_to_grid_spec(world_pos) {
            Some((gx, gy)) => Some(local_of_cell(gx as int, gy as int, cluster_id.0 as int, cluster_id.1 as int)),
            None => None,
        },
{
    let (gx, gy) = match flow_field.world_to_grid(world_pos) {
        Some(g) => g,
        None => {
            return None;
        },
    };
    proof {
        assert(gx <= flow_field.width * flow_field.cell_size.bits) by (nonlinear_arith)
            requires
                gx < flow_field.width,
                flow_field.cell_size.bits >= 1,
        ;
        assert(gy <= flow_field.height * flow_field.cell_size.bits) by (nonlinear_arith)
            requires
                gy < flow_field.height,
                flow_field.cell_size.bits >= 1,
        ;
    }
    assert(gx <= 0x20_0000_0000 && gy <= 0x20_0000_0000);
    let ox = (cluster_id.0 as i64) * 25;
    let oy = (cluster_id.1 as i64) * 25;
    let dx: i64 = gx as i64 - ox;
    let dy: i64 = gy as i64 - oy;
    assert(-0x20_0000_0000 <= dx <= 0x20_0000_0000);
    assert(-0x20_0000_0000 <= dy <= 0x20_0000_0000);
    let lx = dx * ONE_BITS + HALF_BITS;
    let ly = dy * ONE_BITS + HALF_BITS;
    Some(FixedVec2 { x: FixedNum { bits: lx }, y: FixedNum { bits: ly } })
}

} // verus!
