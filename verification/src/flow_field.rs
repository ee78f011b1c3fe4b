//! Flow-field navigation grid: a cost grid, a Dijkstra-style integration
//! field computed from a target cell, and a direction field that points
//! each cell toward its cheapest neighbour.
use vstd::prelude::*;
use std::collections::VecDeque;
use crate::fixed::{FixedNum, FixedVec2, COORD_LIMIT, ONE_BITS, floor_div_fixed, normalize_spec};

verus! {

/// Cost value marking an impassable cell.
pub const OBSTACLE: u8 = 255;

/// Integration value of a cell that the target cannot reach.
pub const UNREACHED: u32 = 0xffff_ffff;

// ---------------------------------------------------------------------------
// Grid geometry in specifications
// ---------------------------------------------------------------------------

/// Whether `(x, y)` is a cell of a `w` by `h` grid.
pub open spec fn in_grid(w: int, h: int, x: int, y: int) -> bool {
    0 <= x < w && 0 <= y < h
}

/// Whether two cells share an edge.
pub open spec fn adjacent4(x1: int, y1: int, x2: int, y2: int) -> bool {
    (x1 == x2 && (y1 == y2 + 1 || y1 + 1 == y2)) || (y1 == y2 && (x1 == x2 + 1 || x1 + 1 == x2))
}

/// Row-major index of a cell.
pub open spec fn idx(w: int, x: int, y: int) -> int {
    y * w + x
}

/// Value of an integration grid at a cell.
pub open spec fn at32(s: Seq<u32>, w: int, x: int, y: int) -> u32 {
    s[idx(w, x, y)]
}

/// Value of a cost grid at a cell.
pub open spec fn at8(s: Seq<u8>, w: int, x: int, y: int) -> u8 {
    s[idx(w, x, y)]
}

pub proof fn lemma_idx_bounds(w: int, h: int, x: int, y: int)
    requires
        in_grid(w, h, x, y),
    ensures
        0 <= idx(w, x, y) < w * h,
{
    assert(0 <= y * w + x < w * h) by (nonlinear_arith)
        requires
            0 <= x < w,
            0 <= y < h,
    ;
}

pub proof fn lemma_idx_injective(w: int, x1: int, y1: int, x2: int, y2: int)
    requires
        0 <= x1 < w,
        0 <= x2 < w,
        0 <= y1,
        0 <= y2,
        idx(w, x1, y1) == idx(w, x2, y2),
    ensures
        x1 == x2,
        y1 == y2,
{
    assert(y1 == y2) by (nonlinear_arith)
        requires
            0 <= x1 < w,
            0 <= x2 < w,
            0 <= y1,
            0 <= y2,
            y1 * w + x1 == y2 * w + x2,
    {
        if y1 < y2 {
            assert(y1 * w + w <= y2 * w);
        } else if y2 < y1 {
            assert(y2 * w + w <= y1 * w);
        }
    }
}

pub proof fn lemma_at32_update(s: Seq<u32>, w: int, h: int, x: int, y: int, v: u32)
    requires
        s.len() == w * h,
        in_grid(w, h, x, y),
    ensures
        forall|x2: int, y2: int|
            in_grid(w, h, x2, y2) ==> #[trigger] at32(s.update(idx(w, x, y), v), w, x2, y2) == if x2
                == x && y2 == y {
                v
            } else {
                at32(s, w, x2, y2)
            },
{
    lemma_idx_bounds(w, h, x, y);
    assert forall|x2: int, y2: int| in_grid(w, h, x2, y2) implies #[trigger] at32(
        s.update(idx(w, x, y), v),
        w,
        x2,
        y2,
    ) == if x2 == x && y2 == y {
        v
    } else {
        at32(s, w, x2, y2)
    } by {
        lemma_idx_bounds(w, h, x2, y2);
        if idx(w, x, y) == idx(w, x2, y2) {
            lemma_idx_injective(w, x, y, x2, y2);
        }
    }
}

pub proof fn lemma_at8_update(s: Seq<u8>, w: int, h: int, x: int, y: int, v: u8)
    requires
        s.len() == w * h,
        in_grid(w, h, x, y),
    ensures
        forall|x2: int, y2: int|
            in_grid(w, h, x2, y2) ==> #[trigger] at8(s.update(idx(w, x, y), v), w, x2, y2) == if x2
                == x && y2 == y {
                v
            } else {
                at8(s, w, x2, y2)
            },
{
    lemma_idx_bounds(w, h, x, y);
    assert forall|x2: int, y2: int| in_grid(w, h, x2, y2) implies #[trigger] at8(
        s.update(idx(w, x, y), v),
        w,
        x2,
        y2,
    ) == if x2 == x && y2 == y {
        v
    } else {
        at8(s, w, x2, y2)
    } by {
        lemma_idx_bounds(w, h, x2, y2);
        if idx(w, x, y) == idx(w, x2, y2) {
            lemma_idx_injective(w, x, y, x2, y2);
        }
    }
}

// ---------------------------------------------------------------------------
// Paths and the integration field
// ---------------------------------------------------------------------------

/// A walk from the target: consecutive cells share an edge, and every cell
/// after the first is passable.
pub open spec fn valid_walk(cost: Seq<u8>, w: int, h: int, tx: int, ty: int, p: Seq<(int, int)>) -> bool {
    &&& p.len() >= 1
    &&& p[0] == (tx, ty)
    &&& forall|i: int| 0 <= i < p.len() ==> in_grid(w, h, #[trigger] p[i].0, p[i].1)
    &&& forall|i: int|
        0 <= i < p.len() - 1 ==> adjacent4(#[trigger] p[i].0, p[i].1, p[i + 1].0, p[i + 1].1)
    &&& forall|i: int| 1 <= i < p.len() ==> at8(cost, w, #[trigger] p[i].0, p[i].1) != OBSTACLE
}

/// Cost of a walk: the sum of the costs of every cell after the first.
pub open spec fn walk_cost(cost: Seq<u8>, w: int, p: Seq<(int, int)>) -> int
    decreases p.len(),
{
    if p.len() <= 1 {
        0
    } else {
        walk_cost(cost, w, p.drop_last()) + at8(cost, w, p.last().0, p.last().1)
    }
}

/// The value of `(x, y)`, when reached, is the cost of some walk from the target.
pub open spec fn realized(cost: Seq<u8>, f: Seq<u32>, w: int, h: int, tx: int, ty: int, x: int, y: int) -> bool {
    at32(f, w, x, y) != UNREACHED ==> exists|p: Seq<(int, int)>|
        #[trigger] valid_walk(cost, w, h, tx, ty, p) && p.last() == (x, y) && walk_cost(cost, w, p)
            == at32(f, w, x, y)
}

/// Entering `(x2, y2)` from `(x1, y1)` cannot lower the value of `(x2, y2)`.
pub open spec fn relaxed(cost: Seq<u8>, f: Seq<u32>, w: int, x1: int, y1: int, x2: int, y2: int) -> bool {
    (at8(cost, w, x2, y2) != OBSTACLE && at32(f, w, x1, y1) != UNREACHED && at32(f, w, x1, y1)
        + at8(cost, w, x2, y2) <= UNREACHED) ==> at32(f, w, x2, y2) <= at32(f, w, x1, y1) + at8(
        cost,
        w,
        x2,
        y2,
    )
}

/// Every neighbour of `(x, y)` is relaxed from it.
pub open spec fn all_relaxed(cost: Seq<u8>, f: Seq<u32>, w: int, h: int, x: int, y: int) -> bool {
    forall|x2: int, y2: int|
        in_grid(w, h, x2, y2) && adjacent4(x, y, x2, y2) ==> #[trigger] relaxed(cost, f, w, x, y, x2, y2)
}

/// Whether the queue holds the cell `(x, y)`.
pub open spec fn in_queue(q: Seq<(usize, usize)>, x: int, y: int) -> bool {
    exists|i: int| 0 <= i < q.len() && #[trigger] q[i].0 == x && q[i].1 == y
}

/// The integration field is the solution of the shortest-walk equations:
/// the target is 0, every reached cell costs as much as some walk from the
/// target, and no neighbour can improve on any cell.
pub open spec fn is_integration_field(cost: Seq<u8>, f: Seq<u32>, w: int, h: int, tx: int, ty: int) -> bool {
    &&& f.len() == w * h
    &&& at32(f, w, tx, ty) == 0
    &&& forall|x: int, y: int| in_grid(w, h, x, y) ==> #[trigger] realized(cost, f, w, h, tx, ty, x, y)
    &&& forall|x: int, y: int| in_grid(w, h, x, y) ==> #[trigger] all_relaxed(cost, f, w, h, x, y)
}

/// Loop invariant of the integration sweep, with `(ex, ey)` possibly not yet relaxed.
pub open spec fn sweep_inv(
    cost: Seq<u8>,
    f: Seq<u32>,
    q: Seq<(usize, usize)>,
    w: int,
    h: int,
    tx: int,
    ty: int,
    ex: int,
    ey: int,
) -> bool {
    &&& f.len() == w * h
    &&& cost.len() == w * h
    &&& in_grid(w, h, tx, ty)
    &&& at32(f, w, tx, ty) == 0
    &&& forall|x: int, y: int| in_grid(w, h, x, y) ==> #[trigger] realized(cost, f, w, h, tx, ty, x, y)
    &&& forall|i: int|
        0 <= i < q.len() ==> in_grid(w, h, #[trigger] q[i].0 as int, q[i].1 as int) && at32(
            f,
            w,
            q[i].0 as int,
            q[i].1 as int,
        ) != UNREACHED
    &&& forall|x: int, y: int|
        in_grid(w, h, x, y) && !(x == ex && y == ey) && at32(f, w, x, y) != UNREACHED && !in_queue(
            q,
            x,
            y,
        ) ==> #[trigger] all_relaxed(cost, f, w, h, x, y)
}

/// Sum of all entries, used to bound the sweep.
pub open spec fn seq_sum(s: Seq<u32>) -> int
    decreases s.len(),
{
    if s.len() == 0 {
        0
    } else {
        seq_sum(s.drop_last()) + s.last()
    }
}

proof fn lemma_seq_sum_update(s: Seq<u32>, i: int, v: u32)
    requires
        0 <= i < s.len(),
    ensures
        seq_sum(s.update(i, v)) == seq_sum(s) - s[i] + v,
    decreases s.len(),
{
    if i == s.len() - 1 {
        assert(s.update(i, v).drop_last() =~= s.drop_last());
    } else {
        lemma_seq_sum_update(s.drop_last(), i, v);
        assert(s.update(i, v).drop_last() =~= s.drop_last().update(i, v));
    }
}

proof fn lemma_seq_sum_nonneg(s: Seq<u32>)
    ensures
        seq_sum(s) >= 0,
    decreases s.len(),
{
    if s.len() > 0 {
        lemma_seq_sum_nonneg(s.drop_last());
    }
}

proof fn lemma_walk_extend(cost: Seq<u8>, w: int, h: int, tx: int, ty: int, p: Seq<(int, int)>, x: int, y: int)
    requires
        valid_walk(cost, w, h, tx, ty, p),
        in_grid(w, h, x, y),
        adjacent4(p.last().0, p.last().1, x, y),
        at8(cost, w, x, y) != OBSTACLE,
    ensures
        valid_walk(cost, w, h, tx, ty, p.push((x, y))),
        walk_cost(cost, w, p.push((x, y))) == walk_cost(cost, w, p) + at8(cost, w, x, y),
        p.push((x, y)).last() == (x, y),
{
    let q = p.push((x, y));
    assert(q.drop_last() =~= p);
    assert forall|i: int| 0 <= i < q.len() - 1 implies adjacent4(
        #[trigger] q[i].0,
        q[i].1,
        q[i + 1].0,
        q[i + 1].1,
    ) by {
        if i < p.len() - 1 {
            assert(q[i] == p[i] && q[i + 1] == p[i + 1]);
        }
    }
    assert forall|i: int| 0 <= i < q.len() implies in_grid(w, h, #[trigger] q[i].0, q[i].1) by {
        if i < p.len() {
            assert(q[i] == p[i]);
        }
    }
    assert forall|i: int| 1 <= i < q.len() implies at8(cost, w, #[trigger] q[i].0, q[i].1) != OBSTACLE by {
        if i < p.len() {
            assert(q[i] == p[i]);
        }
    }
}

/// Relaxes the edge from `(cx, cy)` into its neighbour `(nx, ny)`.
fn relax_cell(
    cost: &Vec<u8>,
    field: &mut Vec<u32>,
    queue: &mut VecDeque<(usize, usize)>,
    w: usize,
    h: usize,
    cx: usize,
    cy: usize,
    nx: usize,
    ny: usize,
    Ghost(tx): Ghost<int>,
    Ghost(ty): Ghost<int>,
)
    requires
        sweep_inv(cost@, old(field)@, old(queue)@, w as int, h as int, tx, ty, cx as int, cy as int),
        in_grid(w as int, h as int, cx as int, cy as int),
        in_grid(w as int, h as int, nx as int, ny as int),
        adjacent4(cx as int, cy as int, nx as int, ny as int),
        at32(old(field)@, w as int, cx as int, cy as int) != UNREACHED,
        w * h <= usize::MAX,
    ensures
        sweep_inv(cost@, final(field)@, final(queue)@, w as int, h as int, tx, ty, cx as int, cy as int),
        relaxed(cost@, final(field)@, w as int, cx as int, cy as int, nx as int, ny as int),
        at32(final(field)@, w as int, cx as int, cy as int) == at32(old(field)@, w as int, cx as int, cy as int),
        forall|x2: int, y2: int|
            in_grid(w as int, h as int, x2, y2) && relaxed(cost@, old(field)@, w as int, cx as int, cy as int, x2, y2)
                ==> #[trigger] relaxed(cost@, final(field)@, w as int, cx as int, cy as int, x2, y2),
        seq_sum(final(field)@) <= seq_sum(old(field)@),
        (final(field)@ == old(field)@ && final(queue)@ == old(queue)@) || seq_sum(final(field)@) < seq_sum(old(field)@),
{
    let ghost wi = w as int;
    let ghost hi = h as int;
    proof {
        lemma_idx_bounds(wi, hi, nx as int, ny as int);
        lemma_idx_bounds(wi, hi, cx as int, cy as int);
    }
    let i = ny * w + nx;
    let ci = cy * w + cx;
    let c = cost[i];
    if c == OBSTACLE {
        return;
    }
    let cur = field[ci];
    let sum: u64 = cur as u64 + c as u64;
    if sum < field[i] as u64 {
        let ghost f0 = field@;
        let ghost q0 = queue@;
        let v = sum as u32;
        field.set(i, v);
        queue.push_back((nx, ny));
        proof {
            let f1 = field@;
            let q1 = queue@;
            lemma_at32_update(f0, wi, hi, nx as int, ny as int, v);
            lemma_seq_sum_update(f0, i as int, v);
            assert(f1 == f0.update(idx(wi, nx as int, ny as int), v));
            // the target keeps its value
            assert(!(nx == tx && ny == ty));
            assert(at32(f1, wi, tx, ty) == 0);
            // every reached cell is still realized by a walk
            let pc = choose|p: Seq<(int, int)>|
                #[trigger] valid_walk(cost@, wi, hi, tx, ty, p) && p.last() == (cx as int, cy as int)
                    && walk_cost(cost@, wi, p) == at32(f0, wi, cx as int, cy as int);
            assert(realized(cost@, f0, wi, hi, tx, ty, cx as int, cy as int));
            lemma_walk_extend(cost@, wi, hi, tx, ty, pc, nx as int, ny as int);
            assert forall|x: int, y: int| in_grid(wi, hi, x, y) implies #[trigger] realized(
                cost@,
                f1,
                wi,
                hi,
                tx,
                ty,
                x,
                y,
            ) by {
                if x == nx && y == ny {
                    let pn = pc.push((nx as int, ny as int));
                    assert(valid_walk(cost@, wi, hi, tx, ty, pn) && pn.last() == (x, y) && walk_cost(
                        cost@,
                        wi,
                        pn,
                    ) == at32(f1, wi, x, y));
                } else {
                    assert(realized(cost@, f0, wi, hi, tx, ty, x, y));
                }
            }
            // queue entries stay on the grid and reached
            assert forall|k: int| 0 <= k < q1.len() implies in_grid(
                wi,
                hi,
                #[trigger] q1[k].0 as int,
                q1[k].1 as int,
            ) && at32(f1, wi, q1[k].0 as int, q1[k].1 as int) != UNREACHED by {
                if k < q0.len() {
                    assert(q1[k] == q0[k]);
                }
            }
            // settled cells stay relaxed
            assert forall|x: int, y: int|
                in_grid(wi, hi, x, y) && !(x == cx && y == cy) && at32(f1, wi, x, y) != UNREACHED
                    && !in_queue(q1, x, y) implies #[trigger] all_relaxed(cost@, f1, wi, hi, x, y) by {
                if x == nx && y == ny {
                    assert(q1[q1.len() - 1].0 == x && q1[q1.len() - 1].1 == y);
                    assert(in_queue(q1, x, y));
                }
                assert(!in_queue(q0, x, y)) by {
                    if in_queue(q0, x, y) {
                        let k = choose|k: int| 0 <= k < q0.len() && #[trigger] q0[k].0 == x && q0[k].1 == y;
                        assert(q1[k] == q0[k]);
                    }
                }
                assert(all_relaxed(cost@, f0, wi, hi, x, y));
                assert forall|x2: int, y2: int|
                    in_grid(wi, hi, x2, y2) && adjacent4(x, y, x2, y2) implies #[trigger] relaxed(
                    cost@,
                    f1,
                    wi,
                    x,
                    y,
                    x2,
                    y2,
                ) by {
                    assert(relaxed(cost@, f0, wi, x, y, x2, y2));
                }
            }
            assert forall|x2: int, y2: int|
                in_grid(wi, hi, x2, y2) && relaxed(cost@, f0, wi, cx as int, cy as int, x2, y2)
                    implies #[trigger] relaxed(cost@, f1, wi, cx as int, cy as int, x2, y2) by {}
        }
    }
}

/// A flow field over a `width` by `height` grid of cells of side `cell_size`,
/// whose bottom-left corner lies at `origin` in world space.
pub struct FlowField {
    pub width: usize,
    pub height: usize,
    pub cell_size: FixedNum,
    pub origin: FixedVec2,
    /// Entry cost of each cell; `OBSTACLE` marks an impassable cell.
    pub cost_field: Vec<u8>,
    /// Cost of the cheapest walk from the target to each cell, or `UNREACHED`.
    pub integration_field: Vec<u32>,
    /// Offset of the cheapest neighbour of each cell, `(0, 0)` where none is cheaper.
    pub vector_field: Vec<(i8, i8)>,
    pub target_cell: Option<(usize, usize)>,
}

/// The eight neighbour offsets in the order in which they are examined.
pub open spec fn dir_offset(k: int) -> (int, int) {
    if k == 0 {
        (-1, 0)
    } else if k == 1 {
        (1, 0)
    } else if k == 2 {
        (0, -1)
    } else if k == 3 {
        (0, 1)
    } else if k == 4 {
        (-1, -1)
    } else if k == 5 {
        (-1, 1)
    } else if k == 6 {
        (1, -1)
    } else {
        (1, 1)
    }
}

/// Result of scanning the first `k` neighbour offsets of `(x, y)`: the value
/// and offset of the first neighbour whose value is strictly below every
/// value seen before it, starting from the value of `(x, y)` itself.
pub open spec fn scan_neighbours(f: Seq<u32>, w: int, h: int, x: int, y: int, k: int) -> (u32, (int, int))
    decreases k,
{
    if k <= 0 {
        (at32(f, w, x, y), (0, 0))
    } else {
        let prev = scan_neighbours(f, w, h, x, y, k - 1);
        let (dx, dy) = dir_offset(k - 1);
        if in_grid(w, h, x + dx, y + dy) && at32(f, w, x + dx, y + dy) < prev.0 {
            (at32(f, w, x + dx, y + dy), (dx, dy))
        } else {
            prev
        }
    }
}

/// Whether `target` names the cell `(x, y)`.
pub open spec fn is_target(target: Option<(usize, usize)>, x: int, y: int) -> bool {
    match target {
        Some(t) => t.0 == x && t.1 == y,
        None => false,
    }
}

/// Direction stored for `(x, y)` by the vector-field pass.
pub open spec fn vector_dir(cost: Seq<u8>, f: Seq<u32>, w: int, h: int, target: Option<(usize, usize)>, x: int, y: int) -> (int, int) {
    if at8(cost, w, x, y) == OBSTACLE || at32(f, w, x, y) == UNREACHED || is_target(target, x, y) {
        (0, 0)
    } else {
        scan_neighbours(f, w, h, x, y, 8).1
    }
}

/// Position of the neighbour offset `(dx, dy)` in the order in which the
/// neighbours are examined: left, right, down, up, then the diagonals
/// down-left, up-left, down-right, up-right.
pub open spec fn neighbour_rank(dx: int, dy: int) -> int {
    if dx == -1 && dy == 0 {
        0
    } else if dx == 1 && dy == 0 {
        1
    } else if dx == 0 && dy == -1 {
        2
    } else if dx == 0 && dy == 1 {
        3
    } else if dx == -1 && dy == -1 {
        4
    } else if dx == -1 && dy == 1 {
        5
    } else if dx == 1 && dy == -1 {
        6
    } else {
        7
    }
}

/// What the direction `d` stored for cell `(x, y)` must satisfy, stated
/// over the grids themselves: the target cell `(target.0, target.1)` and
/// obstacles stay still; any other reached cell with a strictly cheaper
/// neighbour (one of its eight) points, by a unit step in each axis at
/// most, to a neighbour in the grid that is strictly cheaper than itself.
pub open spec fn descends_law(cost: Seq<u8>, f: Seq<u32>, w: int, h: int, target: Option<(usize, usize)>, x: int, y: int, d: (int, int)) -> bool {
    &&& (target matches Some(t) && t.0 as int == x && t.1 as int == y ==> d == (0int, 0int))
    &&& (at8(cost, w, x, y) == OBSTACLE ==> d == (0int, 0int))
    &&& (in_grid(w, h, x, y) && at8(cost, w, x, y) != OBSTACLE && at32(f, w, x, y) != UNREACHED && !(target matches Some(t) && t.0 as int == x
        && t.1 as int == y) && (exists|dx: int, dy: int|
        -1 <= dx <= 1 && -1 <= dy <= 1 && in_grid(w, h, x + dx, y + dy) && #[trigger] at32(f, w, x + dx, y + dy) < at32(
            f,
            w,
            x,
            y,
        )) ==> {
        &&& d != (0int, 0int)
        &&& -1 <= d.0 <= 1
        &&& -1 <= d.1 <= 1
        &&& in_grid(w, h, x + d.0, y + d.1)
        &&& at32(f, w, x + d.0, y + d.1) < at32(f, w, x, y)
        &&& forall|dx: int, dy: int|
            -1 <= dx <= 1 && -1 <= dy <= 1 && in_grid(w, h, x + dx, y + dy) ==> at32(f, w, x + d.0, y + d.1) <= #[trigger] at32(
                f,
                w,
                x + dx,
                y + dy,
            )
        &&& forall|dx: int, dy: int|
            -1 <= dx <= 1 && -1 <= dy <= 1 && !(dx == 0 && dy == 0) && in_grid(w, h, x + dx, y + dy) && #[trigger] at32(
                f,
                w,
                x + dx,
                y + dy,
            ) == at32(f, w, x + d.0, y + d.1) ==> neighbour_rank(d.0, d.1) <= neighbour_rank(dx, dy)
    })
    &&& (in_grid(w, h, x, y) && !(exists|dx: int, dy: int|
        -1 <= dx <= 1 && -1 <= dy <= 1 && in_grid(w, h, x + dx, y + dy) && #[trigger] at32(f, w, x + dx, y + dy) < at32(
            f,
            w,
            x,
            y,
        )) ==> d == (0int, 0int))
    &&& (at32(f, w, x, y) == UNREACHED ==> d == (0int, 0int))
}

/// What the scan of the first `k` neighbours keeps: a value not above the
/// cell's own nor any neighbour scanned, and, where it moved, the offset of
/// a strictly cheaper neighbour in the grid holding that value.
proof fn lemma_scan_neighbours(f: Seq<u32>, w: int, h: int, x: int, y: int, k: int)
    requires
        0 <= k <= 8,
    ensures
        ({
            let (v, d) = scan_neighbours(f, w, h, x, y, k);
            &&& v <= at32(f, w, x, y)
            &&& d == (0int, 0int) ==> v == at32(f, w, x, y)
            &&& d != (0int, 0int) ==> -1 <= d.0 <= 1 && -1 <= d.1 <= 1 && in_grid(w, h, x + d.0, y + d.1) && v == at32(
                f,
                w,
                x + d.0,
                y + d.1,
            ) && v < at32(f, w, x, y)
            &&& forall|j: int|
                0 <= j < k && in_grid(w, h, x + dir_offset(j).0, y + dir_offset(j).1) ==> v <= #[trigger] at32(
                    f,
                    w,
                    x + dir_offset(j).0,
                    y + dir_offset(j).1,
                )
            &&& d != (0int, 0int) ==> exists|j0: int|
                0 <= j0 < k && #[trigger] dir_offset(j0) == d && forall|j: int|
                    0 <= j < j0 && in_grid(w, h, x + dir_offset(j).0, y + dir_offset(j).1) ==> v < #[trigger] at32(
                        f,
                        w,
                        x + dir_offset(j).0,
                        y + dir_offset(j).1,
                    )
        }),
    decreases k,
{
    if k > 0 {
        lemma_scan_neighbours(f, w, h, x, y, k - 1);
        let prev = scan_neighbours(f, w, h, x, y, k - 1);
        let cur = scan_neighbours(f, w, h, x, y, k);
        if cur.1 != (0int, 0int) && cur != prev {
            let j0 = k - 1;
            assert(dir_offset(j0) == cur.1);
            assert forall|j: int|
                0 <= j < j0 && in_grid(w, h, x + dir_offset(j).0, y + dir_offset(j).1) implies cur.0 < #[trigger] at32(
                    f,
                    w,
                    x + dir_offset(j).0,
                    y + dir_offset(j).1,
                ) by {
                assert(prev.0 <= at32(f, w, x + dir_offset(j).0, y + dir_offset(j).1));
            }
        }
    }
}

proof fn lemma_rank_offset(dx: int, dy: int, j: int)
    ensures
        -1 <= dx <= 1 && -1 <= dy <= 1 && !(dx == 0 && dy == 0) ==> 0 <= neighbour_rank(dx, dy) < 8 && dir_offset(
            neighbour_rank(dx, dy),
        ) == (dx, dy),
        0 <= j < 8 ==> neighbour_rank(dir_offset(j).0, dir_offset(j).1) == j,
{
}

/// The stored direction of every cell obeys `descends_law`.
pub proof fn law_vector_dir_descends(cost: Seq<u8>, f: Seq<u32>, w: int, h: int, target: Option<(usize, usize)>, x: int, y: int)
    ensures
        descends_law(cost, f, w, h, target, x, y, vector_dir(cost, f, w, h, target, x, y)),
{
    lemma_scan_neighbours(f, w, h, x, y, 8);
    let d = vector_dir(cost, f, w, h, target, x, y);
    if in_grid(w, h, x, y) && at8(cost, w, x, y) != OBSTACLE && at32(f, w, x, y) != UNREACHED && !(target matches Some(t) && t.0 as int == x
        && t.1 as int == y) && (exists|dx: int, dy: int|
        -1 <= dx <= 1 && -1 <= dy <= 1 && in_grid(w, h, x + dx, y + dy) && #[trigger] at32(f, w, x + dx, y + dy) < at32(
            f,
            w,
            x,
            y,
        )) {
        let (dx, dy) = choose|dx: int, dy: int|
            -1 <= dx <= 1 && -1 <= dy <= 1 && in_grid(w, h, x + dx, y + dy) && #[trigger] at32(f, w, x + dx, y + dy) < at32(
                f,
                w,
                x,
                y,
            );
        assert(!is_target(target, x, y));
        let j: int = if dx == -1 && dy == 0 {
            0
        } else if dx == 1 && dy == 0 {
            1
        } else if dx == 0 && dy == -1 {
            2
        } else if dx == 0 && dy == 1 {
            3
        } else if dx == -1 && dy == -1 {
            4
        } else if dx == -1 && dy == 1 {
            5
        } else if dx == 1 && dy == -1 {
            6
        } else {
            7
        };
        assert(dir_offset(j) == (dx, dy));
        assert(at32(f, w, x + dir_offset(j).0, y + dir_offset(j).1) < at32(f, w, x, y));
        let (v, dd) = scan_neighbours(f, w, h, x, y, 8);
        assert(dd == d);
        assert forall|ex: int, ey: int| -1 <= ex <= 1 && -1 <= ey <= 1 && in_grid(w, h, x + ex, y + ey) implies v <= #[trigger] at32(
            f,
            w,
            x + ex,
            y + ey,
        ) by {
            if !(ex == 0 && ey == 0) {
                lemma_rank_offset(ex, ey, 0);
                let i = neighbour_rank(ex, ey);
                assert(in_grid(w, h, x + dir_offset(i).0, y + dir_offset(i).1));
            }
        }
        let j0 = choose|j0: int|
            0 <= j0 < 8 && #[trigger] dir_offset(j0) == d && forall|jj: int|
                0 <= jj < j0 && in_grid(w, h, x + dir_offset(jj).0, y + dir_offset(jj).1) ==> v < #[trigger] at32(
                    f,
                    w,
                    x + dir_offset(jj).0,
                    y + dir_offset(jj).1,
                );
        lemma_rank_offset(0, 0, j0);
        assert forall|ex: int, ey: int|
            -1 <= ex <= 1 && -1 <= ey <= 1 && !(ex == 0 && ey == 0) && in_grid(w, h, x + ex, y + ey) && #[trigger] at32(
                f,
                w,
                x + ex,
                y + ey,
            ) == at32(f, w, x + d.0, y + d.1) implies neighbour_rank(d.0, d.1) <= neighbour_rank(ex, ey) by {
            lemma_rank_offset(ex, ey, 0);
            let i = neighbour_rank(ex, ey);
            if i < j0 {
                assert(in_grid(w, h, x + dir_offset(i).0, y + dir_offset(i).1));
                assert(v < at32(f, w, x + dir_offset(i).0, y + dir_offset(i).1));
            }
        }
    }
    if in_grid(w, h, x, y) && d != (0int, 0int) {
        let (v, dd) = scan_neighbours(f, w, h, x, y, 8);
        assert(dd == d);
        assert(-1 <= d.0 <= 1 && -1 <= d.1 <= 1 && in_grid(w, h, x + d.0, y + d.1) && at32(f, w, x + d.0, y + d.1) < at32(f, w, x, y));
    }
}

impl FlowField {
    /// Every grid holds exactly one entry per cell.
    pub open spec fn wf(&self) -> bool {
        &&& self.width * self.height <= usize::MAX
        &&& self.cost_field@.len() == self.width * self.height
        &&& self.integration_field@.len() == self.width * self.height
        &&& self.vector_field@.len() == self.width * self.height
    }

    /// World coordinates of every cell corner fit in range.
    pub open spec fn geometry_ok(&self) -> bool {
        &&& self.cell_size.bits > 0
        &&& self.origin.in_range()
        &&& self.width * self.cell_size.bits <= COORD_LIMIT
        &&& self.height * self.cell_size.bits <= COORD_LIMIT
    }

    /// World coordinates of every cell of the grid lie in range.
    pub open spec fn centres_in_range(&self) -> bool {
        &&& self.origin.x.bits + self.width * self.cell_size.bits <= COORD_LIMIT
        &&& self.origin.y.bits + self.height * self.cell_size.bits <= COORD_LIMIT
    }

    /// World position of the centre of cell `(x, y)`.
    pub open spec fn cell_center_spec(&self, x: int, y: int) -> FixedVec2 {
        FixedVec2 {
            x: FixedNum {
                bits: (self.origin.x.bits + x * self.cell_size.bits + self.cell_size.bits / 2) as i64,
            },
            y: FixedNum {
                bits: (self.origin.y.bits + y * self.cell_size.bits + self.cell_size.bits / 2) as i64,
            },
        }
    }

    /// Cell containing a world position, if it lies on the grid.
    pub open spec fn world_to_grid_spec(&self, pos: FixedVec2) -> Option<(usize, usize)> {
        let lx = pos.x.bits - self.origin.x.bits;
        let ly = pos.y.bits - self.origin.y.bits;
        if lx < 0 || ly < 0 {
            None
        } else {
            let gx = lx / (self.cell_size.bits as int);
            let gy = ly / (self.cell_size.bits as int);
            if gx < self.width && gy < self.height {
                Some((gx as usize, gy as usize))
            } else {
                None
            }
        }
    }

    /// A field of `width * height` passable cells of cost 1, nothing reached.
    pub fn new(width: usize, height: usize, cell_size: FixedNum, origin: FixedVec2) -> (r: FlowField)
        requires
            width * height <= usize::MAX,
        ensures
            r.wf(),
            r.width == width,
            r.height == height,
            r.cell_size == cell_size,
            r.origin == origin,
            forall|i: int| 0 <= i < width * height ==> #[trigger] r.cost_field@[i] == 1,
            forall|i: int| 0 <= i < width * height ==> #[trigger] r.integration_field@[i] == UNREACHED,
            forall|i: int| 0 <= i < width * height ==> #[trigger] r.vector_field@[i] == (0i8, 0i8),
            r.target_cell is None,
    {
        let size = width * height;
        let mut cost_field: Vec<u8> = Vec::new();
        let mut integration_field: Vec<u32> = Vec::new();
        let mut vector_field: Vec<(i8, i8)> = Vec::new();
        let mut i: usize = 0;
        while i < size
            invariant
                i <= size,
                cost_field@.len() == i,
                integration_field@.len() == i,
                vector_field@.len() == i,
                forall|j: int| 0 <= j < i ==> #[trigger] cost_field@[j] == 1,
                forall|j: int| 0 <= j < i ==> #[trigger] integration_field@[j] == UNREACHED,
                forall|j: int| 0 <= j < i ==> #[trigger] vector_field@[j] == (0i8, 0i8),
            decreases size - i,
        {
            cost_field.push(1);
            integration_field.push(UNREACHED);
            vector_field.push((0, 0));
            i = i + 1;
        }
        FlowField {
            width,
            height,
            cell_size,
            origin,
            cost_field,
            integration_field,
            vector_field,
            target_cell: None,
        }
    }

    /// Unit direction a unit in cell `(x, y)` moves along: the cell's
    /// neighbour offset as a fixed-point vector, normalised (as
    /// `normalize_spec` says); zero where the offset is zero.
    pub fn unit_direction_at(&self, x: usize, y: usize) -> (r: FixedVec2)
        requires
            self.wf(),
            x < self.width,
            y < self.height,
        ensures
            ({
                let (dx, dy) = self.vector_field@[idx(self.width as int, x as int, y as int)];
                (r.x.bits as int, r.y.bits as int) == normalize_spec(dx * ONE_BITS, dy * ONE_BITS)
            }),
    {
        proof {
            lemma_idx_bounds(self.width as int, self.height as int, x as int, y as int);
        }
        let (dx, dy) = self.vector_field[y * self.width + x];
        let v = FixedVec2::new(FixedNum::from_bits((dx as i64) * ONE_BITS), FixedNum::from_bits((dy as i64) * ONE_BITS));
        v.normalize()
    }

    /// Row-major index of `(x, y)`.
    pub fn get_index(&self, x: usize, y: usize) -> (r: usize)
        requires
            y * self.width + x <= usize::MAX,
        ensures
            r == y * self.width + x,
    {
        y * self.width + x
    }

    /// Marks `(x, y)` impassable.
    pub fn set_obstacle(&mut self, x: usize, y: usize)
        requires
            old(self).wf(),
            x < old(self).width,
            y < old(self).height,
        ensures
            final(self).wf(),
            final(self).cost_field@ == old(self).cost_field@.update(
                idx(old(self).width as int, x as int, y as int),
                OBSTACLE,
            ),
            final(self).width == old(self).width,
            final(self).height == old(self).height,
            final(self).cell_size == old(self).cell_size,
            final(self).origin == old(self).origin,
            final(self).integration_field@ == old(self).integration_field@,
            final(self).vector_field@ == old(self).vector_field@,
            final(self).target_cell == old(self).target_cell,
    {
        proof {
            lemma_idx_bounds(self.width as int, self.height as int, x as int, y as int);
        }
        let i = y * self.width + x;
        self.cost_field.set(i, OBSTACLE);
    }

    /// Cell containing a world position, or `None` off the grid.
    pub fn world_to_grid(&self, pos: FixedVec2) -> (r: Option<(usize, usize)>)
        requires
            self.geometry_ok(),
            pos.in_range(),
        ensures
            r == self.world_to_grid_spec(pos),
    {
        let lx = pos.x.sub(self.origin.x);
        let ly = pos.y.sub(self.origin.y);
        if lx.bits < 0 || ly.bits < 0 {
            return None;
        }
        let gx = floor_div_fixed(lx, self.cell_size);
        let gy = floor_div_fixed(ly, self.cell_size);
        if (gx as u64) < (self.width as u64) && (gy as u64) < (self.height as u64) {
            Some((gx as usize, gy as usize))
        } else {
            proof {
                assert(gx >= 0) by (nonlinear_arith)
                    requires
                        gx == lx.bits as int / self.cell_size.bits as int,
                        lx.bits >= 0,
                        self.cell_size.bits > 0,
                ;
                assert(gy >= 0) by (nonlinear_arith)
                    requires
                        gy == ly.bits as int / self.cell_size.bits as int,
                        ly.bits >= 0,
                        self.cell_size.bits > 0,
                ;
            }
            None
        }
    }

    /// World position of the centre of cell `(x, y)`.
    pub fn grid_to_world(&self, x: usize, y: usize) -> (r: FixedVec2)
        requires
            self.geometry_ok(),
            x <= self.width,
            y <= self.height,
        ensures
            r.x.bits == self.origin.x.bits + x * self.cell_size.bits + self.cell_size.bits / 2,
            r.y.bits == self.origin.y.bits + y * self.cell_size.bits + self.cell_size.bits / 2,
            r == self.cell_center_spec(x as int, y as int),
    {
        let c = self.cell_size.bits;
        proof {
            assert(x * c <= self.width * c) by (nonlinear_arith)
                requires
                    x <= self.width,
                    c > 0,
            ;
            assert(y * c <= self.height * c) by (nonlinear_arith)
                requires
                    y <= self.height,
                    c > 0,
            ;
            assert(x <= x * c) by (nonlinear_arith)
                requires
                    c >= 1,
            ;
            assert(y <= y * c) by (nonlinear_arith)
                requires
                    c >= 1,
            ;
        }
        let ox = (x as i64) * c;
        let oy = (y as i64) * c;
        let half = c / 2;
        FixedVec2 {
            x: FixedNum { bits: self.origin.x.bits + ox + half },
            y: FixedNum { bits: self.origin.y.bits + oy + half },
        }
    }

    /// Computes, for every cell, the cost of the cheapest walk from the target
    /// `(target_x, target_y)`, or `UNREACHED`.  A walk enters passable cells only
    /// and pays the cost of every cell it enters.
    pub fn generate_integration_field(&mut self, target_x: usize, target_y: usize)
        requires
            old(self).wf(),
            target_x < old(self).width,
            target_y < old(self).height,
        ensures
            final(self).wf(),
            final(self).width == old(self).width,
            final(self).height == old(self).height,
            final(self).cell_size == old(self).cell_size,
            final(self).origin == old(self).origin,
            final(self).cost_field@ == old(self).cost_field@,
            final(self).vector_field@ == old(self).vector_field@,
            final(self).target_cell == Some((target_x, target_y)),
            is_integration_field(
                final(self).cost_field@,
                final(self).integration_field@,
                old(self).width as int,
                old(self).height as int,
                target_x as int,
                target_y as int,
            ),
    {
        let w = self.width;
        let h = self.height;
        let ghost wi = w as int;
        let ghost hi = h as int;
        let ghost tx = target_x as int;
        let ghost ty = target_y as int;
        let ghost cost0 = self.cost_field@;
        let ghost vec0 = self.vector_field@;
        self.target_cell = Some((target_x, target_y));
        let n = self.integration_field.len();
        let mut k: usize = 0;
        while k < n
            invariant
                n == self.integration_field@.len(),
                self.wf(),
                self.width == w,
                self.height == h,
                self.cost_field@ == cost0,
                self.vector_field@ == vec0,
                self.cell_size == old(self).cell_size,
                self.origin == old(self).origin,
                self.target_cell == Some((target_x, target_y)),
                k <= n,
                forall|j: int| 0 <= j < k ==> #[trigger] self.integration_field@[j] == UNREACHED,
            decreases n - k,
        {
            self.integration_field.set(k, UNREACHED);
            k = k + 1;
        }
        proof {
            lemma_idx_bounds(wi, hi, tx, ty);
        }
        let ti = target_y * w + target_x;
        let ghost f_unreached = self.integration_field@;
        self.integration_field.set(ti, 0);
        let mut queue: VecDeque<(usize, usize)> = VecDeque::new();
        queue.push_back((target_x, target_y));
        proof {
            let f = self.integration_field@;
            let q = queue@;
            lemma_at32_update(f_unreached, wi, hi, tx, ty, 0);
            assert forall|x: int, y: int| in_grid(wi, hi, x, y) implies #[trigger] realized(
                self.cost_field@,
                f,
                wi,
                hi,
                tx,
                ty,
                x,
                y,
            ) by {
                lemma_idx_bounds(wi, hi, x, y);
                if x == tx && y == ty {
                    let p = seq![(tx, ty)];
                    assert(valid_walk(self.cost_field@, wi, hi, tx, ty, p));
                    assert(walk_cost(self.cost_field@, wi, p) == 0);
                }
            }
            assert forall|x: int, y: int|
                in_grid(wi, hi, x, y) && !(x == -1 && y == -1) && at32(f, wi, x, y) != UNREACHED
                    && !in_queue(q, x, y) implies #[trigger] all_relaxed(self.cost_field@, f, wi, hi, x, y) by {
                lemma_idx_bounds(wi, hi, x, y);
                assert(q[0].0 == x && q[0].1 == y);
            }
        }
        while queue.len() > 0
            invariant
                self.wf(),
                self.width == w,
                self.height == h,
                self.cost_field@ == cost0,
                self.vector_field@ == vec0,
                self.cell_size == old(self).cell_size,
                self.origin == old(self).origin,
                self.target_cell == Some((target_x, target_y)),
                wi == w as int,
                hi == h as int,
                tx == target_x as int,
                ty == target_y as int,
                w * h <= usize::MAX,
                sweep_inv(self.cost_field@, self.integration_field@, queue@, wi, hi, tx, ty, -1, -1),
            decreases seq_sum(self.integration_field@), queue@.len(),
        {
            let ghost f0 = self.integration_field@;
            let ghost q0 = queue@;
            let front = queue.pop_front();
            let (cx, cy) = match front {
                Some(c) => c,
                None => {
                    return;
                },
            };
            let ghost q_popped = queue@;
            proof {
                assert(q0 =~= seq![(cx, cy)] + q_popped);
                assert forall|x: int, y: int|
                    in_grid(wi, hi, x, y) && !(x == cx && y == cy) && at32(f0, wi, x, y) != UNREACHED
                        && !in_queue(q_popped, x, y) implies #[trigger] all_relaxed(
                    self.cost_field@,
                    f0,
                    wi,
                    hi,
                    x,
                    y,
                ) by {
                    if in_queue(q0, x, y) {
                        let k = choose|k: int| 0 <= k < q0.len() && #[trigger] q0[k].0 == x && q0[k].1 == y;
                        assert(k != 0);
                        assert(q_popped[k - 1] == q0[k]);
                    }
                }
                assert forall|k: int| 0 <= k < q_popped.len() implies in_grid(
                    wi,
                    hi,
                    #[trigger] q_popped[k].0 as int,
                    q_popped[k].1 as int,
                ) && at32(f0, wi, q_popped[k].0 as int, q_popped[k].1 as int) != UNREACHED by {
                    assert(q_popped[k] == q0[k + 1]);
                }
                assert(in_grid(wi, hi, q0[0].0 as int, q0[0].1 as int));
                assert(in_grid(wi, hi, cx as int, cy as int));
                assert(at32(f0, wi, cx as int, cy as int) != UNREACHED);
                assert(sweep_inv(self.cost_field@, f0, q_popped, wi, hi, tx, ty, cx as int, cy as int));
            }
            if cx > 0 {
                relax_cell(
                    &self.cost_field,
                    &mut self.integration_field,
                    &mut queue,
                    w,
                    h,
                    cx,
                    cy,
                    cx - 1,
                    cy,
                    Ghost(tx),
                    Ghost(ty),
                );
            }
            if cx + 1 < w {
                relax_cell(
                    &self.cost_field,
                    &mut self.integration_field,
                    &mut queue,
                    w,
                    h,
                    cx,
                    cy,
                    cx + 1,
                    cy,
                    Ghost(tx),
                    Ghost(ty),
                );
            }
            if cy > 0 {
                relax_cell(
                    &self.cost_field,
                    &mut self.integration_field,
                    &mut queue,
                    w,
                    h,
                    cx,
                    cy,
                    cx,
                    cy - 1,
                    Ghost(tx),
                    Ghost(ty),
                );
            }
            if cy + 1 < h {
                relax_cell(
                    &self.cost_field,
                    &mut self.integration_field,
                    &mut queue,
                    w,
                    h,
                    cx,
                    cy,
                    cx,
                    cy + 1,
                    Ghost(tx),
                    Ghost(ty),
                );
            }
            proof {
                let f1 = self.integration_field@;
                assert(all_relaxed(self.cost_field@, f1, wi, hi, cx as int, cy as int)) by {
                    assert forall|x2: int, y2: int|
                        in_grid(wi, hi, x2, y2) && adjacent4(cx as int, cy as int, x2, y2) implies #[trigger] relaxed(
                        self.cost_field@,
                        f1,
                        wi,
                        cx as int,
                        cy as int,
                        x2,
                        y2,
                    ) by {}
                }
                lemma_seq_sum_nonneg(f1);
            }
        }
        proof {
            let f = self.integration_field@;
            assert forall|x: int, y: int| in_grid(wi, hi, x, y) implies #[trigger] all_relaxed(
                self.cost_field@,
                f,
                wi,
                hi,
                x,
                y,
            ) by {
                if at32(f, wi, x, y) == UNREACHED {
                    assert forall|x2: int, y2: int|
                        in_grid(wi, hi, x2, y2) && adjacent4(x, y, x2, y2) implies #[trigger] relaxed(
                        self.cost_field@,
                        f,
                        wi,
                        x,
                        y,
                        x2,
                        y2,
                    ) by {}
                }
            }
        }
    }

    /// Points every cell toward its cheapest neighbour, scanning the eight
    /// neighbours in `dir_offset` order and keeping the first strict improvement.
    /// Obstacles, unreached cells, the target and cells with no cheaper
    /// neighbour get `(0, 0)`.
    pub fn generate_vector_field(&mut self)
        requires
            old(self).wf(),
        ensures
            final(self).wf(),
            final(self).width == old(self).width,
            final(self).height == old(self).height,
            final(self).cell_size == old(self).cell_size,
            final(self).origin == old(self).origin,
            final(self).cost_field@ == old(self).cost_field@,
            final(self).integration_field@ == old(self).integration_field@,
            final(self).target_cell == old(self).target_cell,
            forall|x: int, y: int|
                in_grid(old(self).width as int, old(self).height as int, x, y) ==> {
                    let d = #[trigger] final(self).vector_field@[idx(old(self).width as int, x, y)];
                    let e = vector_dir(
                        old(self).cost_field@,
                        old(self).integration_field@,
                        old(self).width as int,
                        old(self).height as int,
                        old(self).target_cell,
                        x,
                        y,
                    );
                    d.0 as int == e.0 && d.1 as int == e.1
                },
            forall|x: int, y: int|
                in_grid(old(self).width as int, old(self).height as int, x, y) ==> {
                    let d = #[trigger] final(self).vector_field@[idx(old(self).width as int, x, y)];
                    descends_law(
                        old(self).cost_field@,
                        old(self).integration_field@,
                        old(self).width as int,
                        old(self).height as int,
                        old(self).target_cell,
                        x,
                        y,
                        (d.0 as int, d.1 as int),
                    )
                },
    {
        let w = self.width;
        let h = self.height;
        let ghost wi = w as int;
        let ghost hi = h as int;
        let ghost cost0 = self.cost_field@;
        let ghost f0 = self.integration_field@;
        let mut y: usize = 0;
        while y < h
            invariant
                self.wf(),
                self.width == w,
                self.height == h,
                wi == w as int,
                hi == h as int,
                self.cost_field@ == cost0,
                self.integration_field@ == f0,
                self.cell_size == old(self).cell_size,
                self.origin == old(self).origin,
                self.target_cell == old(self).target_cell,
                y <= h,
                forall|xx: int, yy: int|
                    0 <= xx < wi && 0 <= yy < y ==> {
                        let d = #[trigger] self.vector_field@[idx(wi, xx, yy)];
                        let e = vector_dir(cost0, f0, wi, hi, old(self).target_cell, xx, yy);
                        d.0 as int == e.0 && d.1 as int == e.1
                    },
            decreases h - y,
        {
            let mut x: usize = 0;
            while x < w
                invariant
                    self.wf(),
                    self.width == w,
                    self.height == h,
                    wi == w as int,
                    hi == h as int,
                    self.cost_field@ == cost0,
                    self.integration_field@ == f0,
                    self.cell_size == old(self).cell_size,
                    self.origin == old(self).origin,
                    self.target_cell == old(self).target_cell,
                    y < h,
                    x <= w,
                    forall|xx: int, yy: int|
                        0 <= xx < wi && 0 <= yy < hi && (yy < y || (yy == y && xx < x)) ==> {
                            let d = #[trigger] self.vector_field@[idx(wi, xx, yy)];
                            let e = vector_dir(cost0, f0, wi, hi, old(self).target_cell, xx, yy);
                            d.0 as int == e.0 && d.1 as int == e.1
                        },
                decreases w - x,
            {
                proof {
                    lemma_idx_bounds(wi, hi, x as int, y as int);
                }
                let i = y * w + x;
                let d = self.direction_at(x, y);
                let ghost before = self.vector_field@;
                self.vector_field.set(i, d);
                proof {
                    assert forall|xx: int, yy: int|
                        0 <= xx < wi && 0 <= yy < hi && (yy < y || (yy == y && xx <= x)) implies {
                            let d2 = #[trigger] self.vector_field@[idx(wi, xx, yy)];
                            let e = vector_dir(cost0, f0, wi, hi, old(self).target_cell, xx, yy);
                            d2.0 as int == e.0 && d2.1 as int == e.1
                        } by {
                        lemma_idx_bounds(wi, hi, xx, yy);
                        if idx(wi, xx, yy) == idx(wi, x as int, y as int) {
                            lemma_idx_injective(wi, xx, yy, x as int, y as int);
                        }
                    }
                }
                x = x + 1;
            }
            y = y + 1;
        }
        proof {
            assert forall|xx: int, yy: int| in_grid(wi, hi, xx, yy) implies {
                let d = #[trigger] self.vector_field@[idx(wi, xx, yy)];
                descends_law(cost0, f0, wi, hi, old(self).target_cell, xx, yy, (d.0 as int, d.1 as int))
            } by {
                law_vector_dir_descends(cost0, f0, wi, hi, old(self).target_cell, xx, yy);
                let d = self.vector_field@[idx(wi, xx, yy)];
                let e = vector_dir(cost0, f0, wi, hi, old(self).target_cell, xx, yy);
                assert((d.0 as int, d.1 as int) == e);
            }
        }
    }

    /// Direction chosen for one cell (see `vector_dir`).
    fn direction_at(&self, x: usize, y: usize) -> (r: (i8, i8))
        requires
            self.wf(),
            x < self.width,
            y < self.height,
        ensures
            r.0 as int == vector_dir(
                self.cost_field@,
                self.integration_field@,
                self.width as int,
                self.height as int,
                self.target_cell,
                x as int,
                y as int,
            ).0,
            r.1 as int == vector_dir(
                self.cost_field@,
                self.integration_field@,
                self.width as int,
                self.height as int,
                self.target_cell,
                x as int,
                y as int,
            ).1,
    {
        let w = self.width;
        let h = self.height;
        proof {
            lemma_idx_bounds(w as int, h as int, x as int, y as int);
        }
        let i = y * w + x;
        if self.cost_field[i] == OBSTACLE || self.integration_field[i] == UNREACHED {
            return (0, 0);
        }
        match self.target_cell {
            Some((tx, ty)) => {
                if tx == x && ty == y {
                    return (0, 0);
                }
            },
            None => {},
        }
        let mut best: u32 = self.integration_field[i];
        let mut bdx: i8 = 0;
        let mut bdy: i8 = 0;
        let mut k: usize = 0;
        while k < 8
            invariant
                self.wf(),
                w == self.width,
                h == self.height,
                x < w,
                y < h,
                k <= 8,
                (best, (bdx as int, bdy as int)) == scan_neighbours(
                    self.integration_field@,
                    w as int,
                    h as int,
                    x as int,
                    y as int,
                    k as int,
                ),
            decreases 8 - k,
        {
            let (dx, dy) = offset_of(k);
            let nx_ok = if dx < 0 { x > 0 } else if dx > 0 { x + 1 < w } else { true };
            let ny_ok = if dy < 0 { y > 0 } else if dy > 0 { y + 1 < h } else { true };
            if nx_ok && ny_ok {
                let nx = if dx < 0 { x - 1 } else if dx > 0 { x + 1 } else { x };
                let ny = if dy < 0 { y - 1 } else if dy > 0 { y + 1 } else { y };
                proof {
                    lemma_idx_bounds(w as int, h as int, nx as int, ny as int);
                }
                let v = self.integration_field[ny * w + nx];
                if v < best {
                    best = v;
                    bdx = dx;
                    bdy = dy;
                }
            }
            k = k + 1;
        }
        (bdx, bdy)
    }
}

/// The `k`-th neighbour offset.
fn offset_of(k: usize) -> (r: (i8, i8))
    requires
        k < 8,
    ensures
        r.0 as int == dir_offset(k as int).0,
        r.1 as int == dir_offset(k as int).1,
{
    if k == 0 {
        (-1, 0)
    } else if k == 1 {
        (1, 0)
    } else if k == 2 {
        (0, -1)
    } else if k == 3 {
        (0, 1)
    } else if k == 4 {
        (-1, -1)
    } else if k == 5 {
        (-1, 1)
    } else if k == 6 {
        (1, -1)
    } else {
        (1, 1)
    }
}

/// The integration field is a shortest-walk field: no walk from the target to
/// a cell, whose cost stays below `UNREACHED`, is cheaper than the value the
/// field holds for that cell.
pub proof fn lemma_integration_is_shortest(
    cost: Seq<u8>,
    f: Seq<u32>,
    w: int,
    h: int,
    tx: int,
    ty: int,
    p: Seq<(int, int)>,
)
    requires
        cost.len() == w * h,
        is_integration_field(cost, f, w, h, tx, ty),
        valid_walk(cost, w, h, tx, ty, p),
        walk_cost(cost, w, p) < UNREACHED,
    ensures
        at32(f, w, p.last().0, p.last().1) <= walk_cost(cost, w, p),
    decreases p.len(),
{
    if p.len() > 1 {
        let q = p.drop_last();
        assert forall|i: int| 0 <= i < q.len() - 1 implies adjacent4(
            #[trigger] q[i].0,
            q[i].1,
            q[i + 1].0,
            q[i + 1].1,
        ) by {
            assert(q[i] == p[i] && q[i + 1] == p[i + 1]);
        }
        assert forall|i: int| 0 <= i < q.len() implies in_grid(w, h, #[trigger] q[i].0, q[i].1) by {
            assert(q[i] == p[i]);
        }
        assert forall|i: int| 1 <= i < q.len() implies at8(cost, w, #[trigger] q[i].0, q[i].1) != OBSTACLE by {
            assert(q[i] == p[i]);
        }
        assert(valid_walk(cost, w, h, tx, ty, q));
        let (x, y) = p.last();
        let (x1, y1) = q.last();
        assert(q.last() == p[p.len() - 2]);
        assert(in_grid(w, h, x1, y1));
        assert(in_grid(w, h, x, y));
        assert(adjacent4(p[p.len() - 2].0, p[p.len() - 2].1, p[p.len() - 1].0, p[p.len() - 1].1));
        assert(at8(cost, w, p[p.len() - 1].0, p[p.len() - 1].1) != OBSTACLE);
        lemma_integration_is_shortest(cost, f, w, h, tx, ty, q);
        assert(all_relaxed(cost, f, w, h, x1, y1));
        assert(relaxed(cost, f, w, x1, y1, x, y));
    }
}

} // verus!
