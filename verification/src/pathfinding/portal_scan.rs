//! Finding the crossings between neighbouring clusters: maximal runs of
//! cells passable on both sides of a cluster border, and passable corners.
use vstd::prelude::*;
use crate::fixed::FixedNum;
use crate::flow_field::{FlowField, OBSTACLE, at8, in_grid, lemma_idx_bounds};
use crate::pathfinding::types::{Node, CLUSTER_SIZE};
use crate::pathfinding::graph::HierarchicalGraph;
use crate::pathfinding::cluster::{create_portal_vertical, create_portal_horizontal, create_portal_diagonal, portal_at, STRAIGHT_PORTAL_COST_BITS, DIAGONAL_PORTAL_COST_BITS};

verus! {

/// Whether a cell exists and is passable.
pub open spec fn passable(ff: &FlowField, x: int, y: int) -> bool {
    in_grid(ff.width as int, ff.height as int, x, y) && at8(ff.cost_field@, ff.width as int, x, y) != OBSTACLE
}

/// Whether position `t` along a border between lines `l1` and `l2` is
/// passable on both sides: columns for a vertical border, rows otherwise.
pub open spec fn crossing_open(ff: &FlowField, vertical: bool, l1: int, l2: int, t: int) -> bool {
    if vertical {
        passable(ff, l1, t) && passable(ff, l2, t)
    } else {
        passable(ff, t, l1) && passable(ff, t, l2)
    }
}

/// A maximal run `r.0..=r.1` of open positions within `lo..hi`.
pub open spec fn run_ok(ff: &FlowField, vertical: bool, l1: int, l2: int, lo: int, hi: int, r: (usize, usize)) -> bool {
    &&& lo <= r.0 <= r.1 < hi
    &&& forall|t: int| r.0 <= t <= r.1 ==> #[trigger] crossing_open(ff, vertical, l1, l2, t)
    &&& (r.0 == lo || !crossing_open(ff, vertical, l1, l2, r.0 - 1))
    &&& (r.1 + 1 == hi || !crossing_open(ff, vertical, l1, l2, r.1 + 1))
}

/// `runs` lists, in increasing order, every maximal run of open positions
/// within `lo..hi`, and nothing else.
pub open spec fn runs_spec(ff: &FlowField, vertical: bool, l1: int, l2: int, lo: int, hi: int, runs: Seq<(usize, usize)>) -> bool {
    &&& forall|i: int| 0 <= i < runs.len() ==> #[trigger] run_ok(ff, vertical, l1, l2, lo, hi, runs[i])
    &&& forall|i: int, j: int| 0 <= i < j < runs.len() ==> (#[trigger] runs[i]).1 < (#[trigger] runs[j]).0
    &&& forall|t: int|
        lo <= t < hi && #[trigger] crossing_open(ff, vertical, l1, l2, t) ==> exists|i: int|
            0 <= i < runs.len() && (#[trigger] runs[i]).0 <= t <= runs[i].1
}

fn open_at(ff: &FlowField, vertical: bool, l1: usize, l2: usize, t: usize) -> (r: bool)
    requires
        ff.wf(),
    ensures
        r == crossing_open(ff, vertical, l1 as int, l2 as int, t as int),
{
    let (x1, y1, x2, y2) = if vertical { (l1, t, l2, t) } else { (t, l1, t, l2) };
    if x1 < ff.width && y1 < ff.height && x2 < ff.width && y2 < ff.height {
        proof {
            lemma_idx_bounds(ff.width as int, ff.height as int, x1 as int, y1 as int);
            lemma_idx_bounds(ff.width as int, ff.height as int, x2 as int, y2 as int);
        }
        ff.cost_field[y1 * ff.width + x1] != OBSTACLE && ff.cost_field[y2 * ff.width + x2] != OBSTACLE
    } else {
        false
    }
}

/// The maximal runs of positions `lo..hi` open on both sides of a border.
pub fn crossing_runs(ff: &FlowField, vertical: bool, l1: usize, l2: usize, lo: usize, hi: usize) -> (runs: Vec<(usize, usize)>)
    requires
        ff.wf(),
        hi < usize::MAX,
    ensures
        runs_spec(ff, vertical, l1 as int, l2 as int, lo as int, hi as int, runs@),
{
    let mut runs: Vec<(usize, usize)> = Vec::new();
    let mut start: Option<usize> = None;
    let mut t = lo;
    while t < hi
        invariant
            ff.wf(),
            hi < usize::MAX,
            lo <= t <= hi || (lo > hi && t == lo),
            forall|i: int| 0 <= i < runs@.len() ==> #[trigger] run_ok(ff, vertical, l1 as int, l2 as int, lo as int, hi as int, runs@[i]),
            forall|i: int, j: int| 0 <= i < j < runs@.len() ==> (#[trigger] runs@[i]).1 < (#[trigger] runs@[j]).0,
            forall|i: int| 0 <= i < runs@.len() ==> (#[trigger] runs@[i]).1 < t,
            match start {
                Some(a) => {
                    &&& lo <= a < t
                    &&& forall|u: int| a <= u < t ==> #[trigger] crossing_open(ff, vertical, l1 as int, l2 as int, u)
                    &&& (a == lo || !crossing_open(ff, vertical, l1 as int, l2 as int, a - 1))
                    &&& forall|i: int| 0 <= i < runs@.len() ==> (#[trigger] runs@[i]).1 + 1 < a
                    &&& forall|u: int|
                        lo <= u < a && #[trigger] crossing_open(ff, vertical, l1 as int, l2 as int, u) ==> exists|i: int|
                            0 <= i < runs@.len() && (#[trigger] runs@[i]).0 <= u <= runs@[i].1
                },
                None => {
                    &&& (t == lo || !crossing_open(ff, vertical, l1 as int, l2 as int, t - 1))
                    &&& forall|u: int|
                        lo <= u < t && #[trigger] crossing_open(ff, vertical, l1 as int, l2 as int, u) ==> exists|i: int|
                            0 <= i < runs@.len() && (#[trigger] runs@[i]).0 <= u <= runs@[i].1
                },
            },
        decreases hi - t,
    {
        let open = open_at(ff, vertical, l1, l2, t);
        match start {
            None => {
                if open {
                    proof {
                        assert forall|i: int| 0 <= i < runs@.len() implies (#[trigger] runs@[i]).1 + 1 < t by {
                            assert(run_ok(ff, vertical, l1 as int, l2 as int, lo as int, hi as int, runs@[i]));
                        }
                    }
                    start = Some(t);
                }
            },
            Some(a) => {
                if !open {
                    let ghost before = runs@;
                    runs.push((a, t - 1));
                    proof {
                        let n = before.len();
                        assert forall|i: int, j: int| 0 <= i < j < runs@.len() implies (#[trigger] runs@[i]).1 < (#[trigger] runs@[j]).0 by {
                            if j == n {
                                assert(runs@[i] == before[i]);
                            } else {
                                assert(runs@[i] == before[i] && runs@[j] == before[j]);
                            }
                        }
                        assert forall|u: int|
                            lo <= u < t + 1 && #[trigger] crossing_open(ff, vertical, l1 as int, l2 as int, u) implies exists|i: int|
                                0 <= i < runs@.len() && (#[trigger] runs@[i]).0 <= u <= runs@[i].1 by {
                            if u >= a {
                                assert(runs@[n as int] == (a, (t - 1) as usize));
                            } else {
                                let i = choose|i: int| 0 <= i < before.len() && (#[trigger] before[i]).0 <= u <= before[i].1;
                                assert(runs@[i] == before[i]);
                            }
                        }
                        assert forall|i: int| 0 <= i < runs@.len() implies #[trigger] run_ok(ff, vertical, l1 as int, l2 as int, lo as int, hi as int, runs@[i]) by {
                            if i < n {
                                assert(runs@[i] == before[i]);
                            }
                        }
                    }
                    start = None;
                }
            },
        }
        t = t + 1;
    }
    if let Some(a) = start {
        let ghost before = runs@;
        runs.push((a, hi - 1));
        proof {
            let n = before.len();
            assert forall|i: int, j: int| 0 <= i < j < runs@.len() implies (#[trigger] runs@[i]).1 < (#[trigger] runs@[j]).0 by {
                if j == n {
                    assert(runs@[i] == before[i]);
                } else {
                    assert(runs@[i] == before[i] && runs@[j] == before[j]);
                }
            }
            assert forall|u: int|
                lo <= u < hi && #[trigger] crossing_open(ff, vertical, l1 as int, l2 as int, u) implies exists|i: int|
                    0 <= i < runs@.len() && (#[trigger] runs@[i]).0 <= u <= runs@[i].1 by {
                if u >= a {
                    assert(runs@[n as int] == (a, (hi - 1) as usize));
                } else {
                    let i = choose|i: int| 0 <= i < before.len() && (#[trigger] before[i]).0 <= u <= before[i].1;
                    assert(runs@[i] == before[i]);
                }
            }
            assert forall|i: int| 0 <= i < runs@.len() implies #[trigger] run_ok(ff, vertical, l1 as int, l2 as int, lo as int, hi as int, runs@[i]) by {
                if i < n {
                    assert(runs@[i] == before[i]);
                }
            }
        }
    }
    runs
}

proof fn lemma_runs_len(ff: &FlowField, vertical: bool, l1: int, l2: int, lo: int, hi: int, runs: Seq<(usize, usize)>)
    requires
        runs_spec(ff, vertical, l1, l2, lo, hi, runs),
    ensures
        runs.len() <= if hi >= lo { hi - lo } else { 0 },
        forall|i: int| 0 <= i < runs.len() ==> (#[trigger] runs[i]).0 >= lo + i,
{
    assert forall|i: int| 0 <= i < runs.len() implies (#[trigger] runs[i]).0 >= lo + i by {
        lemma_run_start(ff, vertical, l1, l2, lo, hi, runs, i);
    }
    if runs.len() > 0 {
        let k = runs.len() - 1;
        assert(runs[k].0 >= lo + k);
        assert(run_ok(ff, vertical, l1, l2, lo, hi, runs[k]));
    }
}

proof fn lemma_run_start(ff: &FlowField, vertical: bool, l1: int, l2: int, lo: int, hi: int, runs: Seq<(usize, usize)>, i: int)
    requires
        runs_spec(ff, vertical, l1, l2, lo, hi, runs),
        0 <= i < runs.len(),
    ensures
        runs[i].0 >= lo + i,
    decreases i,
{
    assert(run_ok(ff, vertical, l1, l2, lo, hi, runs[i]));
    if i > 0 {
        lemma_run_start(ff, vertical, l1, l2, lo, hi, runs, i - 1);
        assert(run_ok(ff, vertical, l1, l2, lo, hi, runs[i - 1]));
        assert(runs[i - 1].1 < runs[i].0);
    }
}

/// Portals `k` and `k + 1` are the two sides of the crossing `p1`/`p2`,
/// joined both ways at `cost`.
pub open spec fn pair_at(g: &HierarchicalGraph, k: int, p1: crate::pathfinding::types::Portal, p2: crate::pathfinding::types::Portal, cost: i64) -> bool {
    &&& 0 <= k
    &&& k + 1 < g.portals@.len()
    &&& g.portals@[k] == p1
    &&& g.portals@[k + 1] == p2
    &&& g.portal_connections@[k]@ == seq![((k + 1) as usize, FixedNum { bits: cost })]
    &&& g.portal_connections@[k + 1]@ == seq![(k as usize, FixedNum { bits: cost })]
}

/// Number of clusters needed to cover `n` cells.
pub open spec fn clusters_across(n: int) -> int {
    (n + CLUSTER_SIZE - 1) / (CLUSTER_SIZE as int)
}

proof fn lemma_clusters_across(n: int, c: int)
    requires
        0 <= n,
        0 <= c < clusters_across(n),
    ensures
        c * CLUSTER_SIZE < n,
        (c + 1) * CLUSTER_SIZE <= n + CLUSTER_SIZE - 1,
{
}

/// Near-side line of the border of cluster `(cx, cy)`: its last column for
/// the border to the east (`vertical`), its last row for the border to the north.
pub open spec fn border_line(vertical: bool, cx: int, cy: int) -> int {
    if vertical {
        (cx + 1) * CLUSTER_SIZE - 1
    } else {
        (cy + 1) * CLUSTER_SIZE - 1
    }
}

/// Positions along that border, clipped to the grid, as `(lo, hi)`: the rows
/// of the cluster for a vertical border, its columns otherwise.
pub open spec fn border_span(ff: &FlowField, vertical: bool, cx: int, cy: int) -> (int, int) {
    if vertical {
        (cy * CLUSTER_SIZE, if (cy + 1) * CLUSTER_SIZE <= ff.height { (cy + 1) * CLUSTER_SIZE } else { ff.height as int })
    } else {
        (cx * CLUSTER_SIZE, if (cx + 1) * CLUSTER_SIZE <= ff.width { (cx + 1) * CLUSTER_SIZE } else { ff.width as int })
    }
}

/// Cluster `(cx, cy)` of a `wc` by `hc` grid has a neighbour across that
/// border, and the far-side line lies in the grid.
pub open spec fn border_exists(ff: &FlowField, wc: int, hc: int, vertical: bool, cx: int, cy: int) -> bool {
    &&& 0 <= cx < wc
    &&& 0 <= cy < hc
    &&& if vertical {
        cx < wc - 1 && border_line(true, cx, cy) + 1 < ff.width
    } else {
        cy < hc - 1 && border_line(false, cx, cy) + 1 < ff.height
    }
}

/// Cell at position `t` of line `line`: column `line` for a vertical border,
/// row `line` otherwise.
pub open spec fn cell_on(vertical: bool, line: int, t: int) -> Node {
    if vertical {
        Node { x: line as usize, y: t as usize }
    } else {
        Node { x: t as usize, y: line as usize }
    }
}

/// The cluster across that border.
pub open spec fn across(vertical: bool, cx: int, cy: int) -> (usize, usize) {
    if vertical {
        ((cx + 1) as usize, cy as usize)
    } else {
        (cx as usize, (cy + 1) as usize)
    }
}

/// Portals `k`, `k + 1` are the two sides of the maximal open run `a..=b` of
/// that border: near side in `(cx, cy)`, far side across, both at the middle.
pub open spec fn border_pair(g: &HierarchicalGraph, ff: &FlowField, vertical: bool, k: int, cx: int, cy: int, a: int, b: int) -> bool {
    let l = border_line(vertical, cx, cy);
    let span = border_span(ff, vertical, cx, cy);
    let mid = (a + b) / 2;
    &&& span.0 <= a <= b < span.1
    &&& run_ok(ff, vertical, l, l + 1, span.0, span.1, (a as usize, b as usize))
    &&& pair_at(
        g,
        k,
        portal_at(k, cell_on(vertical, l, mid), cell_on(vertical, l, a), cell_on(vertical, l, b), (cx as usize, cy as usize), ff),
        portal_at(k + 1, cell_on(vertical, l + 1, mid), cell_on(vertical, l + 1, a), cell_on(vertical, l + 1, b), across(vertical, cx, cy), ff),
        STRAIGHT_PORTAL_COST_BITS,
    )
}

/// Portals `k`, `k + 1` cross that border over some maximal open run.
pub open spec fn pair_of_border(g: &HierarchicalGraph, ff: &FlowField, vertical: bool, k: int, cx: int, cy: int) -> bool {
    exists|a: int, b: int| #![trigger border_pair(g, ff, vertical, k, cx, cy, a, b)] border_pair(g, ff, vertical, k, cx, cy, a, b)
}

/// Position `t` of that border is open on both sides.
pub open spec fn border_open(ff: &FlowField, wc: int, hc: int, vertical: bool, cx: int, cy: int, t: int) -> bool {
    let l = border_line(vertical, cx, cy);
    &&& border_exists(ff, wc, hc, vertical, cx, cy)
    &&& border_span(ff, vertical, cx, cy).0 <= t < border_span(ff, vertical, cx, cy).1
    &&& crossing_open(ff, vertical, l, l + 1, t)
}

/// Order in which borders are scanned: vertical borders row by row of
/// clusters, horizontal ones column by column; `(o, i)` is the position
/// (outer, inner) reached.
pub open spec fn scanned_before(vertical: bool, cx: int, cy: int, o: int, i: int) -> bool {
    let (po, pi) = if vertical { (cy, cx) } else { (cx, cy) };
    po < o || (po == o && pi < i)
}

/// Portals `k`, `k + 1` cross some border of that orientation.
pub open spec fn some_border_pair(g: &HierarchicalGraph, ff: &FlowField, wc: int, hc: int, vertical: bool, k: int) -> bool {
    exists|cx: int, cy: int, a: int, b: int|
        #![trigger border_pair(g, ff, vertical, k, cx, cy, a, b)]
        border_exists(ff, wc, hc, vertical, cx, cy) && border_pair(g, ff, vertical, k, cx, cy, a, b)
}

/// Portals `from..to` form crossing pairs of borders of that orientation,
/// every open position of every border scanned before `(o, i)` lies in one
/// of them, each of them lies on a border scanned before `(o, i)`, and they
/// come in scan order: border by border, and along a border run by run (so
/// no run has two pairs).
pub open spec fn border_pairs_inv(g: &HierarchicalGraph, ff: &FlowField, wc: int, hc: int, vertical: bool, from: int, to: int, o: int, i: int) -> bool {
    &&& from <= to
    &&& (to - from) % 2 == 0
    &&& forall|k: int| from <= k < to && (k - from) % 2 == 0 ==> #[trigger] some_border_pair(g, ff, wc, hc, vertical, k)
    &&& forall|cx: int, cy: int, t: int|
        scanned_before(vertical, cx, cy, o, i) && #[trigger] border_open(ff, wc, hc, vertical, cx, cy, t) ==> exists|k: int, a: int, b: int|
            #![trigger border_pair(g, ff, vertical, k, cx, cy, a, b)]
            from <= k < to && (k - from) % 2 == 0 && border_pair(g, ff, vertical, k, cx, cy, a, b) && a <= t <= b
    &&& forall|k: int, cx: int, cy: int, a: int, b: int|
        from <= k < to && (k - from) % 2 == 0 && border_exists(ff, wc, hc, vertical, cx, cy) && #[trigger] border_pair(g, ff, vertical, k, cx, cy, a, b)
            ==> scanned_before(vertical, cx, cy, o, i)
    &&& forall|k1: int, cx1: int, cy1: int, a1: int, b1: int, k2: int, cx2: int, cy2: int, a2: int, b2: int|
        from <= k1 < k2 < to && (k1 - from) % 2 == 0 && (k2 - from) % 2 == 0 && border_exists(ff, wc, hc, vertical, cx1, cy1)
            && border_exists(ff, wc, hc, vertical, cx2, cy2) && #[trigger] border_pair(g, ff, vertical, k1, cx1, cy1, a1, b1)
            && #[trigger] border_pair(g, ff, vertical, k2, cx2, cy2, a2, b2) ==> border_pos_before(vertical, cx1, cy1, b1, cx2, cy2, a2)
}

/// `g2` keeps every portal and connection list of `g1` and may add more.
pub open spec fn extends(g2: &HierarchicalGraph, g1: &HierarchicalGraph) -> bool {
    &&& g2.portals@.len() >= g1.portals@.len()
    &&& g2.portal_connections@.len() >= g1.portal_connections@.len()
    &&& forall|i: int| 0 <= i < g1.portals@.len() ==> #[trigger] g2.portals@[i] == g1.portals@[i]
    &&& forall|i: int| 0 <= i < g1.portal_connections@.len() ==> #[trigger] g2.portal_connections@[i]@ == g1.portal_connections@[i]@
}

pub(crate) proof fn lemma_extends_trans(g3: &HierarchicalGraph, g2: &HierarchicalGraph, g1: &HierarchicalGraph)
    requires
        extends(g3, g2),
        extends(g2, g1),
    ensures
        extends(g3, g1),
{
    assert forall|i: int| 0 <= i < g1.portals@.len() implies #[trigger] g3.portals@[i] == g1.portals@[i] by {
        assert(g2.portals@[i] == g1.portals@[i]);
    }
    assert forall|i: int| 0 <= i < g1.portal_connections@.len() implies #[trigger] g3.portal_connections@[i]@ == g1.portal_connections@[i]@ by {
        assert(g2.portal_connections@[i]@ == g1.portal_connections@[i]@);
    }
}

proof fn lemma_pair_at_extends(g2: &HierarchicalGraph, g1: &HierarchicalGraph, k: int, p1: crate::pathfinding::types::Portal, p2: crate::pathfinding::types::Portal, cost: i64)
    requires
        extends(g2, g1),
        pair_at(g1, k, p1, p2, cost),
        g1.portal_connections@.len() == g1.portals@.len(),
    ensures
        pair_at(g2, k, p1, p2, cost),
{
    assert(g2.portals@[k] == g1.portals@[k]);
    assert(g2.portals@[k + 1] == g1.portals@[k + 1]);
    assert(g2.portal_connections@[k]@ == g1.portal_connections@[k]@);
    assert(g2.portal_connections@[k + 1]@ == g1.portal_connections@[k + 1]@);
}

proof fn lemma_border_pair_extends(g2: &HierarchicalGraph, g1: &HierarchicalGraph, ff: &FlowField, vertical: bool, k: int, cx: int, cy: int, a: int, b: int)
    requires
        extends(g2, g1),
        g1.portals_wf(),
        border_pair(g1, ff, vertical, k, cx, cy, a, b),
    ensures
        border_pair(g2, ff, vertical, k, cx, cy, a, b),
{
    let l = border_line(vertical, cx, cy);
    let mid = (a + b) / 2;
    lemma_pair_at_extends(g2, g1, k,
        portal_at(k, cell_on(vertical, l, mid), cell_on(vertical, l, a), cell_on(vertical, l, b), (cx as usize, cy as usize), ff),
        portal_at(k + 1, cell_on(vertical, l + 1, mid), cell_on(vertical, l + 1, a), cell_on(vertical, l + 1, b), across(vertical, cx, cy), ff),
        STRAIGHT_PORTAL_COST_BITS);
}

proof fn lemma_border_pair_back(g2: &HierarchicalGraph, g1: &HierarchicalGraph, ff: &FlowField, vertical: bool, k: int, cx: int, cy: int, a: int, b: int)
    requires
        extends(g2, g1),
        g1.portals_wf(),
        0 <= k,
        k + 1 < g1.portals@.len(),
        border_pair(g2, ff, vertical, k, cx, cy, a, b),
    ensures
        border_pair(g1, ff, vertical, k, cx, cy, a, b),
{
    assert(g2.portals@[k] == g1.portals@[k]);
    assert(g2.portals@[k + 1] == g1.portals@[k + 1]);
    assert(g2.portal_connections@[k]@ == g1.portal_connections@[k]@);
    assert(g2.portal_connections@[k + 1]@ == g1.portal_connections@[k + 1]@);
}

/// A pair of the range `from..to` lies where the invariant says in `g2` as in `g1`.
proof fn lemma_border_pair_back_in(g2: &HierarchicalGraph, g1: &HierarchicalGraph, ff: &FlowField, wc: int, hc: int, vertical: bool, from: int, to: int, o: int, i: int, k: int, cx: int, cy: int, a: int, b: int)
    requires
        extends(g2, g1),
        g1.portals_wf(),
        border_pairs_inv(g1, ff, wc, hc, vertical, from, to, o, i),
        from <= k < to,
        (k - from) % 2 == 0,
        border_pair(g2, ff, vertical, k, cx, cy, a, b),
    ensures
        border_pair(g1, ff, vertical, k, cx, cy, a, b),
{
    assert(some_border_pair(g1, ff, wc, hc, vertical, k));
    let (x, y, a0, b0) = choose|x: int, y: int, a0: int, b0: int|
        #![trigger border_pair(g1, ff, vertical, k, x, y, a0, b0)]
        border_exists(ff, wc, hc, vertical, x, y) && border_pair(g1, ff, vertical, k, x, y, a0, b0);
    lemma_border_pair_back(g2, g1, ff, vertical, k, cx, cy, a, b);
}

pub(crate) proof fn lemma_border_inv_extends(g2: &HierarchicalGraph, g1: &HierarchicalGraph, ff: &FlowField, wc: int, hc: int, vertical: bool, from: int, to: int, o: int, i: int)
    requires
        extends(g2, g1),
        g1.portals_wf(),
        border_pairs_inv(g1, ff, wc, hc, vertical, from, to, o, i),
    ensures
        border_pairs_inv(g2, ff, wc, hc, vertical, from, to, o, i),
{
    assert forall|k: int| from <= k < to && (k - from) % 2 == 0 implies #[trigger] some_border_pair(g2, ff, wc, hc, vertical, k) by {
        assert(some_border_pair(g1, ff, wc, hc, vertical, k));
        let (cx, cy, a, b) = choose|cx: int, cy: int, a: int, b: int|
            #![trigger border_pair(g1, ff, vertical, k, cx, cy, a, b)]
            border_exists(ff, wc, hc, vertical, cx, cy) && border_pair(g1, ff, vertical, k, cx, cy, a, b);
        lemma_border_pair_extends(g2, g1, ff, vertical, k, cx, cy, a, b);
    }
    assert forall|cx: int, cy: int, t: int|
        scanned_before(vertical, cx, cy, o, i) && #[trigger] border_open(ff, wc, hc, vertical, cx, cy, t) implies exists|k: int, a: int, b: int|
            #![trigger border_pair(g2, ff, vertical, k, cx, cy, a, b)]
            from <= k < to && (k - from) % 2 == 0 && border_pair(g2, ff, vertical, k, cx, cy, a, b) && a <= t <= b by {
        let (k, a, b) = choose|k: int, a: int, b: int|
            #![trigger border_pair(g1, ff, vertical, k, cx, cy, a, b)]
            from <= k < to && (k - from) % 2 == 0 && border_pair(g1, ff, vertical, k, cx, cy, a, b) && a <= t <= b;
        lemma_border_pair_extends(g2, g1, ff, vertical, k, cx, cy, a, b);
    }
    assert forall|k: int, cx: int, cy: int, a: int, b: int|
        from <= k < to && (k - from) % 2 == 0 && border_exists(ff, wc, hc, vertical, cx, cy) && #[trigger] border_pair(g2, ff, vertical, k, cx, cy, a, b)
            implies scanned_before(vertical, cx, cy, o, i) by {
        lemma_border_pair_back_in(g2, g1, ff, wc, hc, vertical, from, to, o, i, k, cx, cy, a, b);
    }
    assert forall|k1: int, cx1: int, cy1: int, a1: int, b1: int, k2: int, cx2: int, cy2: int, a2: int, b2: int|
        from <= k1 < k2 < to && (k1 - from) % 2 == 0 && (k2 - from) % 2 == 0 && border_exists(ff, wc, hc, vertical, cx1, cy1)
            && border_exists(ff, wc, hc, vertical, cx2, cy2) && #[trigger] border_pair(g2, ff, vertical, k1, cx1, cy1, a1, b1)
            && #[trigger] border_pair(g2, ff, vertical, k2, cx2, cy2, a2, b2) implies border_pos_before(vertical, cx1, cy1, b1, cx2, cy2, a2) by {
        lemma_border_pair_back_in(g2, g1, ff, wc, hc, vertical, from, to, o, i, k1, cx1, cy1, a1, b1);
        lemma_border_pair_back_in(g2, g1, ff, wc, hc, vertical, from, to, o, i, k2, cx2, cy2, a2, b2);
    }
}

/// A portal pair lies on one border and one run only.
proof fn lemma_border_pair_unique(
    g: &HierarchicalGraph,
    ff: &FlowField,
    wc: int,
    hc: int,
    vertical: bool,
    k: int,
    x1: int,
    y1: int,
    a1: int,
    b1: int,
    x2: int,
    y2: int,
    a2: int,
    b2: int,
)
    requires
        border_exists(ff, wc, hc, vertical, x1, y1),
        border_exists(ff, wc, hc, vertical, x2, y2),
        border_pair(g, ff, vertical, k, x1, y1, a1, b1),
        border_pair(g, ff, vertical, k, x2, y2, a2, b2),
        wc <= usize::MAX,
        hc <= usize::MAX,
    ensures
        x1 == x2,
        y1 == y2,
        a1 == a2,
        b1 == b2,
{
    let p = g.portals@[k];
    assert(p.cluster == (x1 as usize, y1 as usize));
    assert(p.cluster == (x2 as usize, y2 as usize));
    assert(x1 == x2 && y1 == y2);
    let l = border_line(vertical, x1, y1);
    assert(p.range_min == cell_on(vertical, l, a1));
    assert(p.range_min == cell_on(vertical, l, a2));
    assert(p.range_max == cell_on(vertical, l, b1));
    assert(p.range_max == cell_on(vertical, l, b2));
    let span = border_span(ff, vertical, x1, y1);
    assert(0 <= span.0);
    assert(span.1 <= usize::MAX);
}

/// Whether the pair over run `..=b1` of the border of cluster `(cx1, cy1)`
/// comes before the one over run `a2..` of the border of `(cx2, cy2)` in
/// scan order: an earlier border, or the same border further along.
pub open spec fn border_pos_before(vertical: bool, cx1: int, cy1: int, b1: int, cx2: int, cy2: int, a2: int) -> bool {
    let (o2, i2) = if vertical { (cy2, cx2) } else { (cx2, cy2) };
    scanned_before(vertical, cx1, cy1, o2, i2) || (cx1 == cx2 && cy1 == cy2 && b1 < a2)
}

/// Appends one portal pair per maximal open run of the border of cluster
/// `(cx, cy)` (east border if `vertical`, north border otherwise), in order.
fn scan_border(graph: &mut HierarchicalGraph, ff: &FlowField, vertical: bool, cx: usize, cy: usize, wc: usize, hc: usize)
    requires
        old(graph).portals_wf(),
        ff.wf(),
        ff.geometry_ok(),
        border_exists(ff, wc as int, hc as int, vertical, cx as int, cy as int),
        wc == clusters_across(ff.width as int),
        hc == clusters_across(ff.height as int),
        ff.width + CLUSTER_SIZE < usize::MAX,
        ff.height + CLUSTER_SIZE < usize::MAX,
        old(graph).next_portal_id + 2 * CLUSTER_SIZE <= usize::MAX,
    ensures
        final(graph).portals_wf(),
        final(graph).same_except_portals(old(graph)),
        extends(final(graph), old(graph)),
        old(graph).next_portal_id <= final(graph).next_portal_id <= old(graph).next_portal_id + 2 * CLUSTER_SIZE,
        (final(graph).next_portal_id - old(graph).next_portal_id) % 2 == 0,
        forall|k: int|
            old(graph).next_portal_id <= k < final(graph).next_portal_id && (k - old(graph).next_portal_id) % 2 == 0
                ==> #[trigger] pair_of_border(final(graph), ff, vertical, k, cx as int, cy as int),
        forall|t: int|
            #[trigger] border_open(ff, wc as int, hc as int, vertical, cx as int, cy as int, t) ==> exists|k: int, a: int, b: int|
                #![trigger border_pair(final(graph), ff, vertical, k, cx as int, cy as int, a, b)]
                old(graph).next_portal_id <= k < final(graph).next_portal_id && (k - old(graph).next_portal_id) % 2 == 0
                    && border_pair(final(graph), ff, vertical, k, cx as int, cy as int, a, b) && a <= t <= b,
        forall|k: int, x: int, y: int, a: int, b: int|
            old(graph).next_portal_id <= k < final(graph).next_portal_id && (k - old(graph).next_portal_id) % 2 == 0 && border_exists(
                ff,
                wc as int,
                hc as int,
                vertical,
                x,
                y,
            ) && #[trigger] border_pair(final(graph), ff, vertical, k, x, y, a, b) ==> x == cx && y == cy,
        forall|k1: int, a1: int, b1: int, k2: int, a2: int, b2: int|
            old(graph).next_portal_id <= k1 < k2 < final(graph).next_portal_id && (k1 - old(graph).next_portal_id) % 2 == 0 && (k2
                - old(graph).next_portal_id) % 2 == 0 && #[trigger] border_pair(final(graph), ff, vertical, k1, cx as int, cy as int, a1, b1)
                && #[trigger] border_pair(final(graph), ff, vertical, k2, cx as int, cy as int, a2, b2) ==> b1 < a2,
{
    proof {
        lemma_clusters_across(ff.width as int, cx as int);
        lemma_clusters_across(ff.height as int, cy as int);
    }
    let line: usize = if vertical { (cx + 1) * CLUSTER_SIZE - 1 } else { (cy + 1) * CLUSTER_SIZE - 1 };
    let lo: usize = if vertical { cy * CLUSTER_SIZE } else { cx * CLUSTER_SIZE };
    let hi: usize = if vertical {
        if (cy + 1) * CLUSTER_SIZE <= ff.height { (cy + 1) * CLUSTER_SIZE } else { ff.height }
    } else {
        if (cx + 1) * CLUSTER_SIZE <= ff.width { (cx + 1) * CLUSTER_SIZE } else { ff.width }
    };
    let runs = crossing_runs(ff, vertical, line, line + 1, lo, hi);
    proof {
        lemma_runs_len(ff, vertical, line as int, line + 1, lo as int, hi as int, runs@);
        assert(hi - lo <= CLUSTER_SIZE);
    }
    let ghost g0 = *graph;
    let ghost n0 = graph.next_portal_id as int;
    let mut i: usize = 0;
    while i < runs.len()
        invariant
            ff.wf(),
            ff.geometry_ok(),
            border_exists(ff, wc as int, hc as int, vertical, cx as int, cy as int),
            line == border_line(vertical, cx as int, cy as int),
            (lo as int, hi as int) == border_span(ff, vertical, cx as int, cy as int),
            runs_spec(ff, vertical, line as int, line + 1, lo as int, hi as int, runs@),
            runs@.len() <= CLUSTER_SIZE,
            n0 == g0.next_portal_id,
            n0 + 2 * CLUSTER_SIZE <= usize::MAX,
            g0.portals_wf(),
            i <= runs@.len(),
            graph.portals_wf(),
            graph.same_except_portals(&g0),
            extends(graph, &g0),
            graph.next_portal_id == n0 + 2 * i,
            forall|j: int| 0 <= j < i ==> #[trigger] border_pair(graph, ff, vertical, n0 + 2 * j, cx as int, cy as int, runs@[j].0 as int, runs@[j].1 as int),
        decreases runs@.len() - i,
    {
        let (a, b) = runs[i];
        proof {
            assert(run_ok(ff, vertical, line as int, line + 1, lo as int, hi as int, runs@[i as int]));
        }
        let ghost gp = *graph;
        if vertical {
            create_portal_vertical(graph, line, line + 1, a, b, cx, cy, cx + 1, cy, ff);
        } else {
            create_portal_horizontal(graph, a, b, line, line + 1, cx, cy, cx, cy + 1, ff);
        }
        proof {
            assert(extends(graph, &gp)) by {
                assert forall|j: int| 0 <= j < gp.portal_connections@.len() implies #[trigger] graph.portal_connections@[j]@ == gp.portal_connections@[j]@ by {}
            }
            lemma_extends_trans(graph, &gp, &g0);
            assert forall|j: int| 0 <= j < i + 1 implies #[trigger] border_pair(graph, ff, vertical, n0 + 2 * j, cx as int, cy as int, runs@[j].0 as int, runs@[j].1 as int) by {
                if j < i {
                    lemma_border_pair_extends(graph, &gp, ff, vertical, n0 + 2 * j, cx as int, cy as int, runs@[j].0 as int, runs@[j].1 as int);
                } else {
                    assert(graph.portals@[n0 + 2 * j] == graph.portals@[gp.portals@.len() as int]);
                }
            }
        }
        i = i + 1;
    }
    proof {
        let n1 = graph.next_portal_id as int;
        assert forall|k: int| n0 <= k < n1 && (k - n0) % 2 == 0 implies #[trigger] pair_of_border(graph, ff, vertical, k, cx as int, cy as int) by {
            let j = (k - n0) / 2;
            assert(k == n0 + 2 * j);
            assert(border_pair(graph, ff, vertical, n0 + 2 * j, cx as int, cy as int, runs@[j].0 as int, runs@[j].1 as int));
        }
        assert forall|t: int| #[trigger] border_open(ff, wc as int, hc as int, vertical, cx as int, cy as int, t) implies exists|k: int, a: int, b: int|
            #![trigger border_pair(graph, ff, vertical, k, cx as int, cy as int, a, b)]
            n0 <= k < n1 && (k - n0) % 2 == 0 && border_pair(graph, ff, vertical, k, cx as int, cy as int, a, b) && a <= t <= b by {
            assert(crossing_open(ff, vertical, line as int, line + 1, t));
            let j = choose|j: int| 0 <= j < runs@.len() && (#[trigger] runs@[j]).0 <= t <= runs@[j].1;
            assert(border_pair(graph, ff, vertical, n0 + 2 * j, cx as int, cy as int, runs@[j].0 as int, runs@[j].1 as int));
            assert((n0 + 2 * j - n0) % 2 == 0);
        }
        assert forall|k: int, x: int, y: int, a: int, b: int|
            n0 <= k < n1 && (k - n0) % 2 == 0 && border_exists(ff, wc as int, hc as int, vertical, x, y) && #[trigger] border_pair(graph, ff, vertical, k, x, y, a, b)
                implies x == cx && y == cy by {
            let j = (k - n0) / 2;
            assert(k == n0 + 2 * j);
            assert(border_pair(graph, ff, vertical, n0 + 2 * j, cx as int, cy as int, runs@[j].0 as int, runs@[j].1 as int));
            lemma_border_pair_unique(graph, ff, wc as int, hc as int, vertical, k, x, y, a, b, cx as int, cy as int, runs@[j].0 as int, runs@[j].1 as int);
        }
        assert forall|k1: int, a1: int, b1: int, k2: int, a2: int, b2: int|
            n0 <= k1 < k2 < n1 && (k1 - n0) % 2 == 0 && (k2 - n0) % 2 == 0 && #[trigger] border_pair(graph, ff, vertical, k1, cx as int, cy as int, a1, b1)
                && #[trigger] border_pair(graph, ff, vertical, k2, cx as int, cy as int, a2, b2) implies b1 < a2 by {
            let j1 = (k1 - n0) / 2;
            let j2 = (k2 - n0) / 2;
            assert(k1 == n0 + 2 * j1);
            assert(k2 == n0 + 2 * j2);
            assert(border_pair(graph, ff, vertical, n0 + 2 * j1, cx as int, cy as int, runs@[j1].0 as int, runs@[j1].1 as int));
            assert(border_pair(graph, ff, vertical, n0 + 2 * j2, cx as int, cy as int, runs@[j2].0 as int, runs@[j2].1 as int));
            lemma_border_pair_unique(graph, ff, wc as int, hc as int, vertical, k1, cx as int, cy as int, a1, b1, cx as int, cy as int, runs@[j1].0 as int, runs@[j1].1 as int);
            lemma_border_pair_unique(graph, ff, wc as int, hc as int, vertical, k2, cx as int, cy as int, a2, b2, cx as int, cy as int, runs@[j2].0 as int, runs@[j2].1 as int);
            assert(runs@[j1].1 < runs@[j2].0);
        }
    }
}

proof fn lemma_scan_count(o: int, i: int, inner: int, outer: int, other: int)
    requires
        0 <= o < outer,
        0 <= i < inner,
        inner <= other,
    ensures
        o * inner + i + 1 <= outer * other,
        o * inner + i + 1 <= (o + 1) * inner,
{
    assert(o * inner + i + 1 <= (o + 1) * inner) by (nonlinear_arith)
        requires
            i < inner,
    ;
    assert((o + 1) * inner <= outer * inner) by (nonlinear_arith)
        requires
            o + 1 <= outer,
            0 <= inner,
    ;
    assert(outer * inner <= outer * other) by (nonlinear_arith)
        requires
            0 <= outer,
            0 <= inner <= other,
    ;
}

/// The pairs of the border of cluster `(cx, cy)`, scanned at position
/// `(o, i)`, appended after those of the borders scanned before it.
proof fn lemma_border_inv_step(
    g: &HierarchicalGraph,
    ff: &FlowField,
    wc: int,
    hc: int,
    vertical: bool,
    n0: int,
    np: int,
    n1: int,
    o: int,
    i: int,
    cx: int,
    cy: int,
)
    requires
        border_pairs_inv(g, ff, wc, hc, vertical, n0, np, o, i),
        np <= n1,
        (n1 - np) % 2 == 0,
        (if vertical { (cy, cx) } else { (cx, cy) }) == (o, i),
        border_exists(ff, wc, hc, vertical, cx, cy),
        forall|k: int| np <= k < n1 && (k - np) % 2 == 0 ==> #[trigger] pair_of_border(g, ff, vertical, k, cx, cy),
        forall|t: int|
            #[trigger] border_open(ff, wc, hc, vertical, cx, cy, t) ==> exists|k: int, a: int, b: int|
                #![trigger border_pair(g, ff, vertical, k, cx, cy, a, b)]
                np <= k < n1 && (k - np) % 2 == 0 && border_pair(g, ff, vertical, k, cx, cy, a, b) && a <= t <= b,
        forall|k: int, x: int, y: int, a: int, b: int|
            np <= k < n1 && (k - np) % 2 == 0 && border_exists(ff, wc, hc, vertical, x, y) && #[trigger] border_pair(g, ff, vertical, k, x, y, a, b)
                ==> x == cx && y == cy,
        forall|k1: int, a1: int, b1: int, k2: int, a2: int, b2: int|
            np <= k1 < k2 < n1 && (k1 - np) % 2 == 0 && (k2 - np) % 2 == 0 && #[trigger] border_pair(g, ff, vertical, k1, cx, cy, a1, b1)
                && #[trigger] border_pair(g, ff, vertical, k2, cx, cy, a2, b2) ==> b1 < a2,
    ensures
        border_pairs_inv(g, ff, wc, hc, vertical, n0, n1, o, i + 1),
{
    assert forall|k: int| n0 <= k < n1 && (k - n0) % 2 == 0 implies #[trigger] some_border_pair(g, ff, wc, hc, vertical, k) by {
        if k >= np {
            assert(pair_of_border(g, ff, vertical, k, cx, cy));
            let (a, b) = choose|a: int, b: int| #![trigger border_pair(g, ff, vertical, k, cx, cy, a, b)] border_pair(g, ff, vertical, k, cx, cy, a, b);
            assert(border_pair(g, ff, vertical, k, cx, cy, a, b));
        }
    }
    assert forall|x: int, y: int, t: int|
        scanned_before(vertical, x, y, o, i + 1) && #[trigger] border_open(ff, wc, hc, vertical, x, y, t) implies exists|k: int, a: int, b: int|
            #![trigger border_pair(g, ff, vertical, k, x, y, a, b)]
            n0 <= k < n1 && (k - n0) % 2 == 0 && border_pair(g, ff, vertical, k, x, y, a, b) && a <= t <= b by {
        if x == cx && y == cy {
            let (k, a, b) = choose|k: int, a: int, b: int|
                #![trigger border_pair(g, ff, vertical, k, cx, cy, a, b)]
                np <= k < n1 && (k - np) % 2 == 0 && border_pair(g, ff, vertical, k, cx, cy, a, b) && a <= t <= b;
            assert(border_pair(g, ff, vertical, k, x, y, a, b));
        } else {
            assert(scanned_before(vertical, x, y, o, i));
        }
    }
    assert forall|k: int, x: int, y: int, a: int, b: int|
        n0 <= k < n1 && (k - n0) % 2 == 0 && border_exists(ff, wc, hc, vertical, x, y) && #[trigger] border_pair(g, ff, vertical, k, x, y, a, b)
            implies scanned_before(vertical, x, y, o, i + 1) by {
        if k >= np {
            assert(x == cx && y == cy);
        }
    }
    assert forall|k1: int, cx1: int, cy1: int, a1: int, b1: int, k2: int, cx2: int, cy2: int, a2: int, b2: int|
        n0 <= k1 < k2 < n1 && (k1 - n0) % 2 == 0 && (k2 - n0) % 2 == 0 && border_exists(ff, wc, hc, vertical, cx1, cy1)
            && border_exists(ff, wc, hc, vertical, cx2, cy2) && #[trigger] border_pair(g, ff, vertical, k1, cx1, cy1, a1, b1)
            && #[trigger] border_pair(g, ff, vertical, k2, cx2, cy2, a2, b2) implies border_pos_before(vertical, cx1, cy1, b1, cx2, cy2, a2) by {
        if k2 >= np {
            assert(cx2 == cx && cy2 == cy);
            if k1 >= np {
                assert(cx1 == cx && cy1 == cy);
            } else {
                assert(scanned_before(vertical, cx1, cy1, o, i));
            }
        }
    }
}

/// Appends a portal pair for every maximal open run of every border of one
/// orientation of a `wc` by `hc` cluster grid: east borders row by row of
/// clusters (`vertical`), north borders column by column otherwise.
pub(crate) fn build_straight_portals(graph: &mut HierarchicalGraph, ff: &FlowField, vertical: bool, wc: usize, hc: usize)
    requires
        old(graph).portals_wf(),
        ff.wf(),
        ff.geometry_ok(),
        wc == clusters_across(ff.width as int),
        hc == clusters_across(ff.height as int),
        ff.width + CLUSTER_SIZE < usize::MAX,
        ff.height + CLUSTER_SIZE < usize::MAX,
        old(graph).next_portal_id + 2 * CLUSTER_SIZE * (wc * hc) <= usize::MAX,
    ensures
        final(graph).portals_wf(),
        final(graph).same_except_portals(old(graph)),
        extends(final(graph), old(graph)),
        final(graph).next_portal_id <= old(graph).next_portal_id + 2 * CLUSTER_SIZE * (wc * hc),
        border_pairs_inv(
            final(graph),
            ff,
            wc as int,
            hc as int,
            vertical,
            old(graph).next_portal_id as int,
            final(graph).next_portal_id as int,
            if vertical { hc as int } else { wc as int },
            0,
        ),
{
    let ghost g0 = *graph;
    let ghost n0 = graph.next_portal_id as int;
    let outer: usize = if vertical { hc } else { wc };
    let other: usize = if vertical { wc } else { hc };
    let inner: usize = if other > 0 { other - 1 } else { 0 };
    let mut o: usize = 0;
    while o < outer
        invariant
            ff.wf(),
            ff.geometry_ok(),
            wc == clusters_across(ff.width as int),
            hc == clusters_across(ff.height as int),
            ff.width + CLUSTER_SIZE < usize::MAX,
            ff.height + CLUSTER_SIZE < usize::MAX,
            outer == if vertical { hc } else { wc },
            other == if vertical { wc } else { hc },
            inner == if other > 0 { other - 1 } else { 0 },
            outer * other == wc * hc,
            n0 == g0.next_portal_id,
            n0 + 2 * CLUSTER_SIZE * (wc * hc) <= usize::MAX,
            g0.portals_wf(),
            o <= outer,
            graph.portals_wf(),
            graph.same_except_portals(&g0),
            extends(graph, &g0),
            graph.next_portal_id <= n0 + 2 * CLUSTER_SIZE * (o * inner),
            border_pairs_inv(graph, ff, wc as int, hc as int, vertical, n0, graph.next_portal_id as int, o as int, 0),
        decreases outer - o,
    {
        let mut i: usize = 0;
        while i < inner
            invariant
                ff.wf(),
                ff.geometry_ok(),
                wc == clusters_across(ff.width as int),
                hc == clusters_across(ff.height as int),
                ff.width + CLUSTER_SIZE < usize::MAX,
                ff.height + CLUSTER_SIZE < usize::MAX,
                outer == if vertical { hc } else { wc },
                other == if vertical { wc } else { hc },
                inner == if other > 0 { other - 1 } else { 0 },
                outer * other == wc * hc,
                n0 == g0.next_portal_id,
                n0 + 2 * CLUSTER_SIZE * (wc * hc) <= usize::MAX,
                g0.portals_wf(),
                o < outer,
                i <= inner,
                graph.portals_wf(),
                graph.same_except_portals(&g0),
                extends(graph, &g0),
                graph.next_portal_id <= n0 + 2 * CLUSTER_SIZE * (o * inner + i),
                border_pairs_inv(graph, ff, wc as int, hc as int, vertical, n0, graph.next_portal_id as int, o as int, i as int),
            decreases inner - i,
        {
            let cx: usize = if vertical { i } else { o };
            let cy: usize = if vertical { o } else { i };
            proof {
                lemma_scan_count(o as int, i as int, inner as int, outer as int, other as int);
                assert(2 * CLUSTER_SIZE * (o * inner + i + 1) <= 2 * CLUSTER_SIZE * (wc * hc)) by (nonlinear_arith)
                    requires
                        o * inner + i + 1 <= wc * hc,
                ;
                assert(2 * CLUSTER_SIZE * (o * inner + i + 1) == 2 * CLUSTER_SIZE * (o * inner + i) + 2 * CLUSTER_SIZE) by (nonlinear_arith);
            }
            let exists = if vertical {
                (cx + 1) * CLUSTER_SIZE < ff.width
            } else {
                (cy + 1) * CLUSTER_SIZE < ff.height
            };
            if exists {
                let ghost gp = *graph;
                let ghost np = graph.next_portal_id as int;
                scan_border(graph, ff, vertical, cx, cy, wc, hc);
                proof {
                    lemma_extends_trans(graph, &gp, &g0);
                    lemma_border_inv_extends(graph, &gp, ff, wc as int, hc as int, vertical, n0, np, o as int, i as int);
                    let n1 = graph.next_portal_id as int;
                    lemma_border_inv_step(graph, ff, wc as int, hc as int, vertical, n0, np, n1, o as int, i as int, cx as int, cy as int);
                }
            } else {
                proof {
                    assert forall|x: int, y: int, t: int|
                        scanned_before(vertical, x, y, o as int, i + 1) && #[trigger] border_open(ff, wc as int, hc as int, vertical, x, y, t) implies exists|k: int, a: int, b: int|
                            #![trigger border_pair(graph, ff, vertical, k, x, y, a, b)]
                            n0 <= k < graph.next_portal_id && (k - n0) % 2 == 0 && border_pair(graph, ff, vertical, k, x, y, a, b) && a <= t <= b by {
                        assert(scanned_before(vertical, x, y, o as int, i as int));
                    }
                    assert forall|k: int, x: int, y: int, a: int, b: int|
                        n0 <= k < graph.next_portal_id && (k - n0) % 2 == 0 && border_exists(ff, wc as int, hc as int, vertical, x, y)
                            && #[trigger] border_pair(graph, ff, vertical, k, x, y, a, b) implies scanned_before(vertical, x, y, o as int, i + 1) by {
                        assert(scanned_before(vertical, x, y, o as int, i as int));
                    }
                }
            }
            i = i + 1;
        }
        proof {
            assert(o * inner + inner == (o + 1) * inner) by (nonlinear_arith);
            assert forall|x: int, y: int, t: int|
                scanned_before(vertical, x, y, o + 1, 0) && #[trigger] border_open(ff, wc as int, hc as int, vertical, x, y, t) implies exists|k: int, a: int, b: int|
                    #![trigger border_pair(graph, ff, vertical, k, x, y, a, b)]
                    n0 <= k < graph.next_portal_id && (k - n0) % 2 == 0 && border_pair(graph, ff, vertical, k, x, y, a, b) && a <= t <= b by {
                assert(scanned_before(vertical, x, y, o as int, inner as int));
            }
            assert forall|k: int, x: int, y: int, a: int, b: int|
                n0 <= k < graph.next_portal_id && (k - n0) % 2 == 0 && border_exists(ff, wc as int, hc as int, vertical, x, y)
                    && #[trigger] border_pair(graph, ff, vertical, k, x, y, a, b) implies scanned_before(vertical, x, y, o + 1, 0) by {
                assert(scanned_before(vertical, x, y, o as int, inner as int));
            }
        }
        o = o + 1;
    }
    proof {
        assert(o * inner <= wc * hc) by (nonlinear_arith)
            requires
                o == outer,
                inner <= other,
                outer * other == wc * hc,
        ;
        assert(2 * CLUSTER_SIZE * (o * inner) <= 2 * CLUSTER_SIZE * (wc * hc)) by (nonlinear_arith)
            requires
                o * inner <= wc * hc,
        ;
    }
}

/// The two cells of a crossing through the corner north-east of cluster
/// `(cx, cy)`, each with its cluster: the rising diagonal joins the top-right
/// cell of `(cx, cy)` to the bottom-left cell of `(cx + 1, cy + 1)`, the other
/// joins the top-left cell of `(cx + 1, cy)` to the bottom-right cell of `(cx, cy + 1)`.
pub open spec fn corner_cells(rising: bool, cx: int, cy: int) -> (Node, (usize, usize), Node, (usize, usize)) {
    let x = (cx + 1) * CLUSTER_SIZE;
    let y = (cy + 1) * CLUSTER_SIZE;
    if rising {
        (Node { x: (x - 1) as usize, y: (y - 1) as usize }, (cx as usize, cy as usize), Node { x: x as usize, y: y as usize }, ((cx + 1) as usize, (cy + 1) as usize))
    } else {
        (Node { x: x as usize, y: (y - 1) as usize }, ((cx + 1) as usize, cy as usize), Node { x: (x - 1) as usize, y: y as usize }, (cx as usize, (cy + 1) as usize))
    }
}

/// Four clusters of a `wc` by `hc` grid meet at that corner, and both cells
/// of that diagonal are passable.
pub open spec fn corner_open(ff: &FlowField, wc: int, hc: int, rising: bool, cx: int, cy: int) -> bool {
    let (n1, c1, n2, c2) = corner_cells(rising, cx, cy);
    &&& 0 <= cx < wc - 1
    &&& 0 <= cy < hc - 1
    &&& passable(ff, n1.x as int, n1.y as int)
    &&& passable(ff, n2.x as int, n2.y as int)
}

/// Portals `k`, `k + 1` are the single-cell sides of that diagonal crossing.
pub open spec fn corner_pair(g: &HierarchicalGraph, ff: &FlowField, rising: bool, k: int, cx: int, cy: int) -> bool {
    let (n1, c1, n2, c2) = corner_cells(rising, cx, cy);
    pair_at(g, k, portal_at(k, n1, n1, n1, c1, ff), portal_at(k + 1, n2, n2, n2, c2, ff), DIAGONAL_PORTAL_COST_BITS)
}

/// Portals `k`, `k + 1` cross some open corner diagonal of the grid.
pub open spec fn some_corner_pair(g: &HierarchicalGraph, ff: &FlowField, wc: int, hc: int, k: int) -> bool {
    exists|cx: int, cy: int, rising: bool|
        #![trigger corner_pair(g, ff, rising, k, cx, cy)]
        corner_open(ff, wc, hc, rising, cx, cy) && corner_pair(g, ff, rising, k, cx, cy)
}

/// Portals `from..to` are diagonal crossing pairs, every open diagonal of
/// every corner scanned (row by row) before `(o, i)` has one, each of them
/// lies at a corner scanned before `(o, i)`, and they come in scan order:
/// corner by corner, the rising diagonal first (so no diagonal has two).
pub open spec fn corner_pairs_inv(g: &HierarchicalGraph, ff: &FlowField, wc: int, hc: int, from: int, to: int, o: int, i: int) -> bool {
    &&& from <= to
    &&& (to - from) % 2 == 0
    &&& forall|k: int| from <= k < to && (k - from) % 2 == 0 ==> #[trigger] some_corner_pair(g, ff, wc, hc, k)
    &&& forall|cx: int, cy: int, rising: bool|
        scanned_before(true, cx, cy, o, i) && #[trigger] corner_open(ff, wc, hc, rising, cx, cy) ==> exists|k: int|
            #![trigger corner_pair(g, ff, rising, k, cx, cy)]
            from <= k < to && (k - from) % 2 == 0 && corner_pair(g, ff, rising, k, cx, cy)
    &&& forall|k: int, cx: int, cy: int, rising: bool|
        from <= k < to && (k - from) % 2 == 0 && corner_open(ff, wc, hc, rising, cx, cy) && #[trigger] corner_pair(g, ff, rising, k, cx, cy)
            ==> scanned_before(true, cx, cy, o, i)
    &&& forall|k1: int, cx1: int, cy1: int, r1: bool, k2: int, cx2: int, cy2: int, r2: bool|
        from <= k1 < k2 < to && (k1 - from) % 2 == 0 && (k2 - from) % 2 == 0 && corner_open(ff, wc, hc, r1, cx1, cy1) && corner_open(
            ff,
            wc,
            hc,
            r2,
            cx2,
            cy2,
        ) && #[trigger] corner_pair(g, ff, r1, k1, cx1, cy1) && #[trigger] corner_pair(g, ff, r2, k2, cx2, cy2) ==> corner_pos_before(
            cx1,
            cy1,
            r1,
            cx2,
            cy2,
            r2,
        )
}

proof fn lemma_corner_pair_extends(g2: &HierarchicalGraph, g1: &HierarchicalGraph, ff: &FlowField, rising: bool, k: int, cx: int, cy: int)
    requires
        extends(g2, g1),
        g1.portals_wf(),
        corner_pair(g1, ff, rising, k, cx, cy),
    ensures
        corner_pair(g2, ff, rising, k, cx, cy),
{
    let (n1, c1, n2, c2) = corner_cells(rising, cx, cy);
    lemma_pair_at_extends(g2, g1, k, portal_at(k, n1, n1, n1, c1, ff), portal_at(k + 1, n2, n2, n2, c2, ff), DIAGONAL_PORTAL_COST_BITS);
}

/// A diagonal pair lies on one corner and one diagonal only.
proof fn lemma_corner_pair_unique(
    g: &HierarchicalGraph,
    ff: &FlowField,
    wc: int,
    hc: int,
    k: int,
    r1: bool,
    cx1: int,
    cy1: int,
    r2: bool,
    cx2: int,
    cy2: int,
)
    requires
        corner_open(ff, wc, hc, r1, cx1, cy1),
        corner_open(ff, wc, hc, r2, cx2, cy2),
        corner_pair(g, ff, r1, k, cx1, cy1),
        corner_pair(g, ff, r2, k, cx2, cy2),
        wc <= usize::MAX,
        hc <= usize::MAX,
    ensures
        r1 == r2,
        cx1 == cx2,
        cy1 == cy2,
{
    let (a1, c1, b1, d1) = corner_cells(r1, cx1, cy1);
    let (a2, c2, b2, d2) = corner_cells(r2, cx2, cy2);
    assert(g.portals@[k].node == a1);
    assert(g.portals@[k].node == a2);
    assert(g.portals@[k].cluster == c1);
    assert(g.portals@[k].cluster == c2);
    assert((a1.x as int) < ff.width && (a2.x as int) < ff.width);
    if r1 != r2 {
        assert(false) by (nonlinear_arith)
            requires
                r1 ==> a1.x == (cx1 + 1) * CLUSTER_SIZE - 1,
                !r1 ==> a1.x == (cx1 + 1) * CLUSTER_SIZE,
                r2 ==> a2.x == (cx2 + 1) * CLUSTER_SIZE - 1,
                !r2 ==> a2.x == (cx2 + 1) * CLUSTER_SIZE,
                a1.x == a2.x,
                r1 != r2,
                CLUSTER_SIZE == 25,
        ;
    }
}

/// Whether the diagonal pair `r1` of corner `(cx1, cy1)` comes before the
/// pair `r2` of corner `(cx2, cy2)` in scan order: an earlier corner, or the
/// rising diagonal before the falling one at the same corner.
pub open spec fn corner_pos_before(cx1: int, cy1: int, r1: bool, cx2: int, cy2: int, r2: bool) -> bool {
    scanned_before(true, cx1, cy1, cy2, cx2) || (cx1 == cx2 && cy1 == cy2 && r1 && !r2)
}

proof fn lemma_corner_pair_back_in(g2: &HierarchicalGraph, g1: &HierarchicalGraph, ff: &FlowField, wc: int, hc: int, from: int, to: int, o: int, i: int, k: int, rising: bool, cx: int, cy: int)
    requires
        extends(g2, g1),
        g1.portals_wf(),
        corner_pairs_inv(g1, ff, wc, hc, from, to, o, i),
        from <= k < to,
        (k - from) % 2 == 0,
        corner_pair(g2, ff, rising, k, cx, cy),
    ensures
        corner_pair(g1, ff, rising, k, cx, cy),
{
    assert(some_corner_pair(g1, ff, wc, hc, k));
    let (x, y, r) = choose|x: int, y: int, r: bool|
        #![trigger corner_pair(g1, ff, r, k, x, y)]
        corner_open(ff, wc, hc, r, x, y) && corner_pair(g1, ff, r, k, x, y);
    assert(g2.portals@[k] == g1.portals@[k]);
    assert(g2.portals@[k + 1] == g1.portals@[k + 1]);
    assert(g2.portal_connections@[k]@ == g1.portal_connections@[k]@);
    assert(g2.portal_connections@[k + 1]@ == g1.portal_connections@[k + 1]@);
}

pub(crate) proof fn lemma_corner_inv_extends(g2: &HierarchicalGraph, g1: &HierarchicalGraph, ff: &FlowField, wc: int, hc: int, from: int, to: int, o: int, i: int)
    requires
        extends(g2, g1),
        g1.portals_wf(),
        corner_pairs_inv(g1, ff, wc, hc, from, to, o, i),
    ensures
        corner_pairs_inv(g2, ff, wc, hc, from, to, o, i),
{
    assert forall|k: int| from <= k < to && (k - from) % 2 == 0 implies #[trigger] some_corner_pair(g2, ff, wc, hc, k) by {
        assert(some_corner_pair(g1, ff, wc, hc, k));
        let (cx, cy, rising) = choose|cx: int, cy: int, rising: bool|
            #![trigger corner_pair(g1, ff, rising, k, cx, cy)]
            corner_open(ff, wc, hc, rising, cx, cy) && corner_pair(g1, ff, rising, k, cx, cy);
        lemma_corner_pair_extends(g2, g1, ff, rising, k, cx, cy);
    }
    assert forall|cx: int, cy: int, rising: bool|
        scanned_before(true, cx, cy, o, i) && #[trigger] corner_open(ff, wc, hc, rising, cx, cy) implies exists|k: int|
            #![trigger corner_pair(g2, ff, rising, k, cx, cy)]
            from <= k < to && (k - from) % 2 == 0 && corner_pair(g2, ff, rising, k, cx, cy) by {
        let k = choose|k: int|
            #![trigger corner_pair(g1, ff, rising, k, cx, cy)]
            from <= k < to && (k - from) % 2 == 0 && corner_pair(g1, ff, rising, k, cx, cy);
        lemma_corner_pair_extends(g2, g1, ff, rising, k, cx, cy);
    }
    assert forall|k: int, cx: int, cy: int, rising: bool|
        from <= k < to && (k - from) % 2 == 0 && corner_open(ff, wc, hc, rising, cx, cy) && #[trigger] corner_pair(g2, ff, rising, k, cx, cy)
            implies scanned_before(true, cx, cy, o, i) by {
        lemma_corner_pair_back_in(g2, g1, ff, wc, hc, from, to, o, i, k, rising, cx, cy);
    }
    assert forall|k1: int, cx1: int, cy1: int, r1: bool, k2: int, cx2: int, cy2: int, r2: bool|
        from <= k1 < k2 < to && (k1 - from) % 2 == 0 && (k2 - from) % 2 == 0 && corner_open(ff, wc, hc, r1, cx1, cy1) && corner_open(
            ff,
            wc,
            hc,
            r2,
            cx2,
            cy2,
        ) && #[trigger] corner_pair(g2, ff, r1, k1, cx1, cy1) && #[trigger] corner_pair(g2, ff, r2, k2, cx2, cy2) implies corner_pos_before(
            cx1,
            cy1,
            r1,
            cx2,
            cy2,
            r2,
        ) by {
        lemma_corner_pair_back_in(g2, g1, ff, wc, hc, from, to, o, i, k1, r1, cx1, cy1);
        lemma_corner_pair_back_in(g2, g1, ff, wc, hc, from, to, o, i, k2, r2, cx2, cy2);
    }
}

fn cell_passable(ff: &FlowField, x: usize, y: usize) -> (r: bool)
    requires
        ff.wf(),
    ensures
        r == passable(ff, x as int, y as int),
{
    if x < ff.width && y < ff.height {
        proof {
            lemma_idx_bounds(ff.width as int, ff.height as int, x as int, y as int);
        }
        ff.cost_field[y * ff.width + x] != OBSTACLE
    } else {
        false
    }
}

/// Appends the diagonal crossings of the corner north-east of cluster
/// `(cx, cy)` whose two cells are passable: the rising one first.
fn scan_corner(graph: &mut HierarchicalGraph, ff: &FlowField, cx: usize, cy: usize, wc: usize, hc: usize)
    requires
        old(graph).portals_wf(),
        ff.wf(),
        ff.geometry_ok(),
        cx + 1 < wc,
        cy + 1 < hc,
        wc == clusters_across(ff.width as int),
        hc == clusters_across(ff.height as int),
        ff.width + CLUSTER_SIZE < usize::MAX,
        ff.height + CLUSTER_SIZE < usize::MAX,
        old(graph).next_portal_id + 4 <= usize::MAX,
    ensures
        final(graph).portals_wf(),
        final(graph).same_except_portals(old(graph)),
        extends(final(graph), old(graph)),
        old(graph).next_portal_id <= final(graph).next_portal_id <= old(graph).next_portal_id + 4,
        (final(graph).next_portal_id - old(graph).next_portal_id) % 2 == 0,
        forall|k: int|
            old(graph).next_portal_id <= k < final(graph).next_portal_id && (k - old(graph).next_portal_id) % 2 == 0
                ==> #[trigger] some_corner_pair(final(graph), ff, wc as int, hc as int, k),
        forall|rising: bool|
            #[trigger] corner_open(ff, wc as int, hc as int, rising, cx as int, cy as int) ==> exists|k: int|
                #![trigger corner_pair(final(graph), ff, rising, k, cx as int, cy as int)]
                old(graph).next_portal_id <= k < final(graph).next_portal_id && (k - old(graph).next_portal_id) % 2 == 0
                    && corner_pair(final(graph), ff, rising, k, cx as int, cy as int),
        forall|k: int, x: int, y: int, r: bool|
            old(graph).next_portal_id <= k < final(graph).next_portal_id && (k - old(graph).next_portal_id) % 2 == 0 && corner_open(
                ff,
                wc as int,
                hc as int,
                r,
                x,
                y,
            ) && #[trigger] corner_pair(final(graph), ff, r, k, x, y) ==> x == cx && y == cy,
        forall|k1: int, r1: bool, k2: int, r2: bool|
            old(graph).next_portal_id <= k1 < k2 < final(graph).next_portal_id && corner_open(ff, wc as int, hc as int, r1, cx as int, cy as int)
                && corner_open(ff, wc as int, hc as int, r2, cx as int, cy as int) && #[trigger] corner_pair(final(graph), ff, r1, k1, cx as int, cy as int)
                && #[trigger] corner_pair(final(graph), ff, r2, k2, cx as int, cy as int) ==> r1 && !r2,
{
    proof {
        lemma_clusters_across(ff.width as int, cx as int + 1);
        lemma_clusters_across(ff.height as int, cy as int + 1);
    }
    let ghost g0 = *graph;
    let ghost n0 = graph.next_portal_id as int;
    let x = (cx + 1) * CLUSTER_SIZE;
    let y = (cy + 1) * CLUSTER_SIZE;
    let rise = cell_passable(ff, x - 1, y - 1) && cell_passable(ff, x, y);
    if rise {
        create_portal_diagonal(graph, x - 1, y - 1, cx, cy, x, y, cx + 1, cy + 1, ff);
        proof {
            assert(corner_pair(graph, ff, true, n0, cx as int, cy as int));
            assert(extends(graph, &g0)) by {
                assert forall|j: int| 0 <= j < g0.portal_connections@.len() implies #[trigger] graph.portal_connections@[j]@ == g0.portal_connections@[j]@ by {}
            }
        }
    }
    let ghost g1 = *graph;
    let ghost n1 = graph.next_portal_id as int;
    let fall = cell_passable(ff, x, y - 1) && cell_passable(ff, x - 1, y);
    if fall {
        create_portal_diagonal(graph, x, y - 1, cx + 1, cy, x - 1, y, cx, cy + 1, ff);
        proof {
            assert(corner_pair(graph, ff, false, n1, cx as int, cy as int));
            assert(extends(graph, &g1)) by {
                assert forall|j: int| 0 <= j < g1.portal_connections@.len() implies #[trigger] graph.portal_connections@[j]@ == g1.portal_connections@[j]@ by {}
            }
            lemma_extends_trans(graph, &g1, &g0);
            if rise {
                lemma_corner_pair_extends(graph, &g1, ff, true, n0, cx as int, cy as int);
            }
        }
    }
    proof {
        let n2 = graph.next_portal_id as int;
        assert(corner_open(ff, wc as int, hc as int, true, cx as int, cy as int) == rise);
        assert(corner_open(ff, wc as int, hc as int, false, cx as int, cy as int) == fall);
        assert forall|k: int| n0 <= k < n2 && (k - n0) % 2 == 0 implies #[trigger] some_corner_pair(graph, ff, wc as int, hc as int, k) by {
            if rise && k == n0 {
                assert(corner_pair(graph, ff, true, k, cx as int, cy as int));
            } else {
                assert(k == n1);
                assert(corner_pair(graph, ff, false, k, cx as int, cy as int));
            }
        }
        assert forall|rising: bool| #[trigger] corner_open(ff, wc as int, hc as int, rising, cx as int, cy as int) implies exists|k: int|
            #![trigger corner_pair(graph, ff, rising, k, cx as int, cy as int)]
            n0 <= k < n2 && (k - n0) % 2 == 0 && corner_pair(graph, ff, rising, k, cx as int, cy as int) by {
            if rising {
                assert(corner_pair(graph, ff, true, n0, cx as int, cy as int));
            } else {
                assert(corner_pair(graph, ff, false, n1, cx as int, cy as int));
            }
        }
        assert forall|k: int, x: int, y: int, r: bool|
            n0 <= k < n2 && (k - n0) % 2 == 0 && corner_open(ff, wc as int, hc as int, r, x, y) && #[trigger] corner_pair(graph, ff, r, k, x, y)
                implies x == cx && y == cy by {
            if rise && k == n0 {
                assert(corner_pair(graph, ff, true, k, cx as int, cy as int));
                lemma_corner_pair_unique(graph, ff, wc as int, hc as int, k, r, x, y, true, cx as int, cy as int);
            } else {
                assert(k == n1);
                assert(corner_pair(graph, ff, false, k, cx as int, cy as int));
                lemma_corner_pair_unique(graph, ff, wc as int, hc as int, k, r, x, y, false, cx as int, cy as int);
            }
        }
        assert forall|k1: int, r1: bool, k2: int, r2: bool|
            n0 <= k1 < k2 < n2 && corner_open(ff, wc as int, hc as int, r1, cx as int, cy as int)
                && corner_open(ff, wc as int, hc as int, r2, cx as int, cy as int) && #[trigger] corner_pair(graph, ff, r1, k1, cx as int, cy as int)
                && #[trigger] corner_pair(graph, ff, r2, k2, cx as int, cy as int) implies r1 && !r2 by {
            assert(rise && fall);
            assert(k1 == n0 && k2 == n1);
            assert(corner_pair(graph, ff, true, n0, cx as int, cy as int));
            assert(corner_pair(graph, ff, false, n1, cx as int, cy as int));
            lemma_corner_pair_unique(graph, ff, wc as int, hc as int, k1, r1, cx as int, cy as int, true, cx as int, cy as int);
            lemma_corner_pair_unique(graph, ff, wc as int, hc as int, k2, r2, cx as int, cy as int, false, cx as int, cy as int);
        }
    }
}

/// The pairs of corner `(cx, cy)`, scanned at position `(cy, cx)`, appended
/// after those of the corners scanned before it.
proof fn lemma_corner_inv_step(g: &HierarchicalGraph, ff: &FlowField, wc: int, hc: int, n0: int, np: int, n1: int, cx: int, cy: int)
    requires
        corner_pairs_inv(g, ff, wc, hc, n0, np, cy, cx),
        np <= n1,
        (n1 - np) % 2 == 0,
        forall|k: int| np <= k < n1 && (k - np) % 2 == 0 ==> #[trigger] some_corner_pair(g, ff, wc, hc, k),
        forall|rising: bool|
            #[trigger] corner_open(ff, wc, hc, rising, cx, cy) ==> exists|k: int|
                #![trigger corner_pair(g, ff, rising, k, cx, cy)]
                np <= k < n1 && (k - np) % 2 == 0 && corner_pair(g, ff, rising, k, cx, cy),
        forall|k: int, x: int, y: int, r: bool|
            np <= k < n1 && (k - np) % 2 == 0 && corner_open(ff, wc, hc, r, x, y) && #[trigger] corner_pair(g, ff, r, k, x, y) ==> x == cx && y == cy,
        forall|k1: int, r1: bool, k2: int, r2: bool|
            np <= k1 < k2 < n1 && corner_open(ff, wc, hc, r1, cx, cy) && corner_open(ff, wc, hc, r2, cx, cy) && #[trigger] corner_pair(g, ff, r1, k1, cx, cy)
                && #[trigger] corner_pair(g, ff, r2, k2, cx, cy) ==> r1 && !r2,
    ensures
        corner_pairs_inv(g, ff, wc, hc, n0, n1, cy, cx + 1),
{
    assert forall|x: int, y: int, rising: bool|
        scanned_before(true, x, y, cy, cx + 1) && #[trigger] corner_open(ff, wc, hc, rising, x, y) implies exists|k: int|
            #![trigger corner_pair(g, ff, rising, k, x, y)]
            n0 <= k < n1 && (k - n0) % 2 == 0 && corner_pair(g, ff, rising, k, x, y) by {
        if x == cx && y == cy {
            let k = choose|k: int|
                #![trigger corner_pair(g, ff, rising, k, cx, cy)]
                np <= k < n1 && (k - np) % 2 == 0 && corner_pair(g, ff, rising, k, cx, cy);
            assert(corner_pair(g, ff, rising, k, x, y));
        } else {
            assert(scanned_before(true, x, y, cy, cx));
        }
    }
    assert forall|k: int, x: int, y: int, rising: bool|
        n0 <= k < n1 && (k - n0) % 2 == 0 && corner_open(ff, wc, hc, rising, x, y) && #[trigger] corner_pair(g, ff, rising, k, x, y)
            implies scanned_before(true, x, y, cy, cx + 1) by {
        if k >= np {
            assert(x == cx && y == cy);
        }
    }
    assert forall|k1: int, cx1: int, cy1: int, r1: bool, k2: int, cx2: int, cy2: int, r2: bool|
        n0 <= k1 < k2 < n1 && (k1 - n0) % 2 == 0 && (k2 - n0) % 2 == 0 && corner_open(ff, wc, hc, r1, cx1, cy1) && corner_open(
            ff,
            wc,
            hc,
            r2,
            cx2,
            cy2,
        ) && #[trigger] corner_pair(g, ff, r1, k1, cx1, cy1) && #[trigger] corner_pair(g, ff, r2, k2, cx2, cy2) implies corner_pos_before(
            cx1,
            cy1,
            r1,
            cx2,
            cy2,
            r2,
        ) by {
        if k2 >= np {
            assert(cx2 == cx && cy2 == cy);
            if k1 >= np {
                assert(cx1 == cx && cy1 == cy);
            } else {
                assert(scanned_before(true, cx1, cy1, cy, cx));
            }
        }
    }
}

/// Appends the diagonal crossings of every corner where four clusters of a
/// `wc` by `hc` grid meet, corners row by row.
pub(crate) fn build_corner_portals(graph: &mut HierarchicalGraph, ff: &FlowField, wc: usize, hc: usize)
    requires
        old(graph).portals_wf(),
        ff.wf(),
        ff.geometry_ok(),
        wc == clusters_across(ff.width as int),
        hc == clusters_across(ff.height as int),
        ff.width + CLUSTER_SIZE < usize::MAX,
        ff.height + CLUSTER_SIZE < usize::MAX,
        old(graph).next_portal_id + 4 * (wc * hc) <= usize::MAX,
    ensures
        final(graph).portals_wf(),
        final(graph).same_except_portals(old(graph)),
        extends(final(graph), old(graph)),
        final(graph).next_portal_id <= old(graph).next_portal_id + 4 * (wc * hc),
        corner_pairs_inv(final(graph), ff, wc as int, hc as int, old(graph).next_portal_id as int, final(graph).next_portal_id as int, hc as int, 0),
{
    let ghost g0 = *graph;
    let ghost n0 = graph.next_portal_id as int;
    let rows: usize = if hc > 0 { hc - 1 } else { 0 };
    let cols: usize = if wc > 0 { wc - 1 } else { 0 };
    let mut cy: usize = 0;
    while cy < rows
        invariant
            ff.wf(),
            ff.geometry_ok(),
            wc == clusters_across(ff.width as int),
            hc == clusters_across(ff.height as int),
            ff.width + CLUSTER_SIZE < usize::MAX,
            ff.height + CLUSTER_SIZE < usize::MAX,
            rows == if hc > 0 { hc - 1 } else { 0 },
            cols == if wc > 0 { wc - 1 } else { 0 },
            n0 == g0.next_portal_id,
            n0 + 4 * (wc * hc) <= usize::MAX,
            g0.portals_wf(),
            cy <= rows,
            graph.portals_wf(),
            graph.same_except_portals(&g0),
            extends(graph, &g0),
            graph.next_portal_id <= n0 + 4 * (cy * cols),
            corner_pairs_inv(graph, ff, wc as int, hc as int, n0, graph.next_portal_id as int, cy as int, 0),
        decreases rows - cy,
    {
        let mut cx: usize = 0;
        while cx < cols
            invariant
                ff.wf(),
                ff.geometry_ok(),
                wc == clusters_across(ff.width as int),
                hc == clusters_across(ff.height as int),
                ff.width + CLUSTER_SIZE < usize::MAX,
                ff.height + CLUSTER_SIZE < usize::MAX,
                rows == if hc > 0 { hc - 1 } else { 0 },
                cols == if wc > 0 { wc - 1 } else { 0 },
                n0 == g0.next_portal_id,
                n0 + 4 * (wc * hc) <= usize::MAX,
                g0.portals_wf(),
                cy < rows,
                cx <= cols,
                graph.portals_wf(),
                graph.same_except_portals(&g0),
                extends(graph, &g0),
                graph.next_portal_id <= n0 + 4 * (cy * cols + cx),
                corner_pairs_inv(graph, ff, wc as int, hc as int, n0, graph.next_portal_id as int, cy as int, cx as int),
            decreases cols - cx,
        {
            proof {
                lemma_scan_count(cy as int, cx as int, cols as int, hc as int, wc as int);
                assert(cy * cols + cx + 1 <= wc * hc) by (nonlinear_arith)
                    requires
                        cy * cols + cx + 1 <= hc * wc,
                ;
            }
            let ghost gp = *graph;
            let ghost np = graph.next_portal_id as int;
            scan_corner(graph, ff, cx, cy, wc, hc);
            proof {
                lemma_extends_trans(graph, &gp, &g0);
                lemma_corner_inv_extends(graph, &gp, ff, wc as int, hc as int, n0, np, cy as int, cx as int);
                let n1 = graph.next_portal_id as int;
                lemma_corner_inv_step(graph, ff, wc as int, hc as int, n0, np, n1, cx as int, cy as int);
                assert forall|k: int| n0 <= k < n1 && (k - n0) % 2 == 0 implies #[trigger] some_corner_pair(graph, ff, wc as int, hc as int, k) by {}
            }
            cx = cx + 1;
        }
        proof {
            assert(cy * cols + cols == (cy + 1) * cols) by (nonlinear_arith);
            assert forall|x: int, y: int, rising: bool|
                scanned_before(true, x, y, cy + 1, 0) && #[trigger] corner_open(ff, wc as int, hc as int, rising, x, y) implies exists|k: int|
                    #![trigger corner_pair(graph, ff, rising, k, x, y)]
                    n0 <= k < graph.next_portal_id && (k - n0) % 2 == 0 && corner_pair(graph, ff, rising, k, x, y) by {
                assert(scanned_before(true, x, y, cy as int, cols as int));
            }
            assert forall|k: int, x: int, y: int, rising: bool|
                n0 <= k < graph.next_portal_id && (k - n0) % 2 == 0 && corner_open(ff, wc as int, hc as int, rising, x, y)
                    && #[trigger] corner_pair(graph, ff, rising, k, x, y) implies scanned_before(true, x, y, cy + 1, 0) by {
                assert(scanned_before(true, x, y, cy as int, cols as int));
            }
        }
        cy = cy + 1;
    }
    proof {
        assert(cy * cols <= wc * hc) by (nonlinear_arith)
            requires
                cy <= hc,
                cols <= wc,
        ;
        assert forall|x: int, y: int, rising: bool|
            scanned_before(true, x, y, hc as int, 0) && #[trigger] corner_open(ff, wc as int, hc as int, rising, x, y) implies exists|k: int|
                #![trigger corner_pair(graph, ff, rising, k, x, y)]
                n0 <= k < graph.next_portal_id && (k - n0) % 2 == 0 && corner_pair(graph, ff, rising, k, x, y) by {
            assert(scanned_before(true, x, y, rows as int, 0));
        }
        assert forall|k: int, x: int, y: int, rising: bool|
            n0 <= k < graph.next_portal_id && (k - n0) % 2 == 0 && corner_open(ff, wc as int, hc as int, rising, x, y)
                && #[trigger] corner_pair(graph, ff, rising, k, x, y) implies scanned_before(true, x, y, hc as int, 0) by {
            assert(scanned_before(true, x, y, rows as int, 0));
        }
    }
}

} // verus!
