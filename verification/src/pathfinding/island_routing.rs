//! The island-to-island routing table: from every island of every cluster, a
//! cheapest-first search over portal crossings records, for each island it
//! reaches, the first portal to take.
use vstd::prelude::*;
use crate::fixed::FixedNum;
use crate::pathfinding::types::{ClusterIslandId, IslandId, MAX_ISLANDS};
use crate::pathfinding::graph::{HierarchicalGraph, NO_ROUTE, linear_island};

verus! {

/// Largest crossing cost (in bits) the routing search allows for one connection.
pub const ISLAND_EDGE_BOUND: i64 = 0x100_0000;

/// Portal that island `u` of its cluster uses in direction `d`, where the
/// cluster is stored and the island has a slot.
pub open spec fn portal_of(g: &HierarchicalGraph, u: ClusterIslandId, d: int) -> Option<usize> {
    let c = g.cluster_at(u.cluster.0 as int, u.cluster.1 as int);
    if c is Some && (u.island.0 as int) < MAX_ISLANDS && 0 <= d < 8 {
        c->0.neighbor_spec(u.island.0 as int, d)
    } else {
        None
    }
}

/// The island reached from island `u` through its portal in direction `d`
/// and that portal's `k`-th connection: the island that reaches the portal
/// at the other end, in that portal's cluster.
pub open spec fn hop_target(g: &HierarchicalGraph, u: ClusterIslandId, d: int, k: int) -> Option<ClusterIslandId> {
    match portal_of(g, u, d) {
        Some(p) => if (p as int) < g.portals@.len() && (p as int) < g.portal_connections@.len() && 0 <= k
            < g.portal_connections@[p as int]@.len() {
            let np = g.portal_connections@[p as int]@[k].0 as int;
            if np < g.portals@.len() && np < g.portal_island_map@.len() && g.portal_island_map@[np] is Some {
                Some(ClusterIslandId { cluster: g.portals@[np].cluster, island: g.portal_island_map@[np]->0 })
            } else {
                None
            }
        } else {
            None
        },
        None => None,
    }
}

/// Island `w` is one portal crossing away from island `u`.
pub open spec fn island_step(g: &HierarchicalGraph, u: ClusterIslandId, w: ClusterIslandId) -> bool {
    exists|d: int, k: int| #[trigger] hop_target(g, u, d, k) == Some(w)
}

/// A walk through islands along portal crossings.
pub open spec fn island_walk(g: &HierarchicalGraph, p: Seq<ClusterIslandId>) -> bool {
    &&& p.len() >= 1
    &&& forall|i: int| 0 <= i < p.len() - 1 ==> #[trigger] island_step(g, p[i], p[i + 1])
}

/// Island `v` can be reached from island `u` along portal crossings.
pub open spec fn island_reachable(g: &HierarchicalGraph, u: ClusterIslandId, v: ClusterIslandId) -> bool {
    exists|p: Seq<ClusterIslandId>| #[trigger] island_walk(g, p) && p[0] == u && p.last() == v
}

/// Portal `p` is a first portal from island `s` toward island `v`: `s` uses
/// it in some direction, and one of its connections leads to an island from
/// which `v` can be reached.
pub open spec fn first_portal_ok(g: &HierarchicalGraph, s: ClusterIslandId, p: usize, v: ClusterIslandId) -> bool {
    exists|d: int, k: int|
        #![trigger hop_target(g, s, d, k)]
        portal_of(g, s, d) == Some(p) && hop_target(g, s, d, k) is Some && island_reachable(g, hop_target(g, s, d, k)->0, v)
}

proof fn lemma_reachable_refl(g: &HierarchicalGraph, a: ClusterIslandId)
    ensures
        island_reachable(g, a, a),
{
    let p = seq![a];
    assert(island_walk(g, p));
}

proof fn lemma_reachable_step(g: &HierarchicalGraph, a: ClusterIslandId, b: ClusterIslandId, c: ClusterIslandId)
    requires
        island_reachable(g, a, b),
        island_step(g, b, c),
    ensures
        island_reachable(g, a, c),
{
    let p = choose|p: Seq<ClusterIslandId>| #[trigger] island_walk(g, p) && p[0] == a && p.last() == b;
    let q = p.push(c);
    assert forall|i: int| 0 <= i < q.len() - 1 implies #[trigger] island_step(g, q[i], q[i + 1]) by {
        if i < p.len() - 1 {
            assert(q[i] == p[i] && q[i + 1] == p[i + 1]);
        }
    }
    assert(island_walk(g, q));
}

proof fn lemma_reachable_prepend(g: &HierarchicalGraph, a: ClusterIslandId, b: ClusterIslandId, c: ClusterIslandId)
    requires
        island_step(g, a, b),
        island_reachable(g, b, c),
    ensures
        island_reachable(g, a, c),
{
    let p = choose|p: Seq<ClusterIslandId>| #[trigger] island_walk(g, p) && p[0] == b && p.last() == c;
    let q = seq![a] + p;
    assert forall|i: int| 0 <= i < q.len() - 1 implies #[trigger] island_step(g, q[i], q[i + 1]) by {
        if i == 0 {
            assert(q[0] == a && q[1] == p[0]);
        } else {
            let j = i - 1;
            assert(q[i] == p[j] && q[i + 1] == p[j + 1]);
            assert(island_step(g, p[j], p[j + 1]));
        }
    }
    assert(island_walk(g, q));
    assert(q.last() == p.last());
}

/// A (cluster, island) pair whose cluster lies in the grid and whose island
/// has a slot: one with an entry in the routing table.
pub open spec fn node_in_grid(g: &HierarchicalGraph, u: ClusterIslandId) -> bool {
    &&& u.cluster.0 < g.cluster_cols
    &&& u.cluster.1 < g.cluster_rows
    &&& (u.island.0 as int) < MAX_ISLANDS
}

/// Position of a node in the per-node tables of the search.
pub open spec fn node_index(g: &HierarchicalGraph, u: ClusterIslandId) -> int {
    linear_island(g.cluster_cols as int, u)
}

proof fn lemma_node_index(g: &HierarchicalGraph, u: ClusterIslandId)
    requires
        g.arena_wf(),
        node_in_grid(g, u),
    ensures
        0 <= node_index(g, u) < g.total_island_capacity,
{
    let cols = g.cluster_cols as int;
    let rows = g.cluster_rows as int;
    let (x, y) = (u.cluster.0 as int, u.cluster.1 as int);
    assert(y * cols + x < cols * rows) by (nonlinear_arith)
        requires
            0 <= x < cols,
            0 <= y < rows,
    ;
    assert(0 <= y * cols) by (nonlinear_arith)
        requires
            0 <= y,
            0 <= cols,
    ;
    assert((y * cols + x) * MAX_ISLANDS + u.island.0 < cols * rows * MAX_ISLANDS) by (nonlinear_arith)
        requires
            0 <= y * cols + x < cols * rows,
            0 <= u.island.0 < MAX_ISLANDS,
    ;
}

proof fn lemma_node_index_injective(g: &HierarchicalGraph, u: ClusterIslandId, v: ClusterIslandId)
    requires
        node_in_grid(g, u),
        node_in_grid(g, v),
        node_index(g, u) == node_index(g, v),
    ensures
        u == v,
{
    let cols = g.cluster_cols as int;
    let a = u.cluster.1 * cols + u.cluster.0;
    let b = v.cluster.1 * cols + v.cluster.0;
    assert(a == b && u.island.0 == v.island.0) by (nonlinear_arith)
        requires
            a * MAX_ISLANDS + u.island.0 == b * MAX_ISLANDS + v.island.0,
            0 <= u.island.0 < MAX_ISLANDS,
            0 <= v.island.0 < MAX_ISLANDS,
    ;
    assert(u.cluster.1 == v.cluster.1 && u.cluster.0 == v.cluster.0) by (nonlinear_arith)
        requires
            u.cluster.1 * cols + u.cluster.0 == v.cluster.1 * cols + v.cluster.0,
            0 <= u.cluster.0 < cols,
            0 <= v.cluster.0 < cols,
            0 <= u.cluster.1,
            0 <= v.cluster.1,
    ;
    assert(u.island == v.island);
}

/// What the routing search needs of a graph: well formed; every portal's
/// cluster in the grid; every mapped island with a slot; every connection
/// costing between zero and `ISLAND_EDGE_BOUND`.
pub open spec fn routing_ready(g: &HierarchicalGraph) -> bool {
    &&& g.wf()
    &&& forall|i: int| 0 <= i < g.portals@.len() ==> (#[trigger] g.portals@[i]).cluster.0 < g.cluster_cols
        && g.portals@[i].cluster.1 < g.cluster_rows
    &&& forall|i: int| 0 <= i < g.portal_island_map@.len() ==> (#[trigger] g.portal_island_map@[i] matches Some(ni)
        ==> (ni.0 as int) < MAX_ISLANDS)
    &&& forall|p: int, k: int|
        0 <= p < g.portal_connections@.len() && 0 <= k < g.portal_connections@[p]@.len() ==> 0
            <= (#[trigger] g.portal_connections@[p]@[k]).1.bits <= ISLAND_EDGE_BOUND
}

proof fn lemma_hop_in_grid(g: &HierarchicalGraph, u: ClusterIslandId, d: int, k: int)
    requires
        routing_ready(g),
        hop_target(g, u, d, k) is Some,
    ensures
        node_in_grid(g, hop_target(g, u, d, k)->0),
{
    let p = portal_of(g, u, d)->0 as int;
    let np = g.portal_connections@[p]@[k].0 as int;
    assert(g.portals@[np].cluster.0 < g.cluster_cols);
    assert(g.portal_island_map@[np] matches Some(ni) ==> (ni.0 as int) < MAX_ISLANDS);
}

/// Number of reached entries of a distance table.
pub open spec fn reach_count(d: Seq<Option<i64>>) -> int
    decreases d.len(),
{
    if d.len() == 0 {
        0
    } else {
        reach_count(d.drop_last()) + if d.last() is Some { 1int } else { 0int }
    }
}

/// Termination measure of the search: each reached entry counts its
/// distance plus one, each other entry `big`.
pub open spec fn search_potential(d: Seq<Option<i64>>, big: int) -> int
    decreases d.len(),
{
    if d.len() == 0 {
        0
    } else {
        search_potential(d.drop_last(), big) + match d.last() {
            Some(v) => v + 1,
            None => big,
        }
    }
}

proof fn lemma_reach_update(d: Seq<Option<i64>>, big: int, i: int, v: i64)
    requires
        0 <= i < d.len(),
    ensures
        reach_count(d.update(i, Some(v))) == reach_count(d) + if d[i] is Some { 0int } else { 1int },
        search_potential(d.update(i, Some(v)), big) == search_potential(d, big) - match d[i] {
            Some(o) => o + 1,
            None => big,
        } + v + 1,
    decreases d.len(),
{
    if i == d.len() - 1 {
        assert(d.update(i, Some(v)).drop_last() =~= d.drop_last());
    } else {
        lemma_reach_update(d.drop_last(), big, i, v);
        assert(d.update(i, Some(v)).drop_last() =~= d.drop_last().update(i, Some(v)));
    }
}

proof fn lemma_reach_bounds(d: Seq<Option<i64>>)
    ensures
        0 <= reach_count(d) <= d.len(),
    decreases d.len(),
{
    if d.len() > 0 {
        lemma_reach_bounds(d.drop_last());
    }
}

proof fn lemma_reach_zero(d: Seq<Option<i64>>)
    requires
        forall|j: int| 0 <= j < d.len() ==> !(#[trigger] d[j] is Some),
    ensures
        reach_count(d) == 0,
    decreases d.len(),
{
    if d.len() > 0 {
        assert forall|j: int| 0 <= j < d.drop_last().len() implies !(#[trigger] d.drop_last()[j] is Some) by {
            assert(d.drop_last()[j] == d[j]);
        }
        lemma_reach_zero(d.drop_last());
    }
}

proof fn lemma_potential_nonneg(d: Seq<Option<i64>>, big: int)
    requires
        big >= 0,
        forall|i: int| 0 <= i < d.len() ==> (#[trigger] d[i] matches Some(v) ==> v >= 0),
    ensures
        search_potential(d, big) >= 0,
    decreases d.len(),
{
    if d.len() > 0 {
        assert forall|i: int| 0 <= i < d.drop_last().len() implies (#[trigger] d.drop_last()[i] matches Some(v) ==> v >= 0) by {
            assert(d.drop_last()[i] == d[i]);
        }
        lemma_potential_nonneg(d.drop_last(), big);
    }
}

/// A search entry: cost, cluster column, cluster row, island, first portal.
pub type SearchEntry = (i64, usize, usize, u8, Option<usize>);

/// Whether search entry `a` comes before entry `b`: by cost, then cluster
/// column, cluster row, island, and first portal (none first).
pub open spec fn entry_before_spec(a: SearchEntry, b: SearchEntry) -> bool {
    let (ac, ax, ay, ai, ap) = a;
    let (bc, bx, by, bi, bp) = b;
    if ac != bc {
        ac < bc
    } else if ax != bx {
        ax < bx
    } else if ay != by {
        ay < by
    } else if ai != bi {
        ai < bi
    } else {
        match (ap, bp) {
            (None, Some(_)) => true,
            (Some(p), Some(q)) => p < q,
            _ => false,
        }
    }
}

proof fn lemma_entry_order(a: SearchEntry, b: SearchEntry, c: SearchEntry)
    ensures
        !entry_before_spec(a, a),
        a != b ==> entry_before_spec(a, b) || entry_before_spec(b, a),
        entry_before_spec(a, b) && entry_before_spec(b, c) ==> entry_before_spec(a, c),
{
}

/// Whether search entry `a` comes before entry `b`, as `entry_before_spec`
/// says.
fn entry_before(a: &(i64, usize, usize, u8, Option<usize>), b: &(i64, usize, usize, u8, Option<usize>)) -> (r: bool)
    ensures
        r == entry_before_spec(*a, *b),
{
    if a.0 != b.0 {
        a.0 < b.0
    } else if a.1 != b.1 {
        a.1 < b.1
    } else if a.2 != b.2 {
        a.2 < b.2
    } else if a.3 != b.3 {
        a.3 < b.3
    } else {
        match (a.4, b.4) {
            (None, Some(_)) => true,
            (Some(p), Some(q)) => p < q,
            _ => false,
        }
    }
}

/// Index of the first entry of a non-empty list that no other comes before:
/// no entry comes before it, and it comes before every entry ahead of it.
fn entry_min(heap: &Vec<(i64, usize, usize, u8, Option<usize>)>) -> (m: usize)
    requires
        heap@.len() > 0,
    ensures
        m < heap@.len(),
        forall|j: int| 0 <= j < heap@.len() ==> !entry_before_spec(#[trigger] heap@[j], heap@[m as int]),
        forall|j: int| 0 <= j < m ==> entry_before_spec(heap@[m as int], #[trigger] heap@[j]),
{
    let mut m: usize = 0;
    let mut k: usize = 1;
    proof {
        lemma_entry_order(heap@[0], heap@[0], heap@[0]);
    }
    while k < heap.len()
        invariant
            heap@.len() > 0,
            m < k,
            1 <= k <= heap@.len(),
            forall|j: int| 0 <= j < k ==> !entry_before_spec(#[trigger] heap@[j], heap@[m as int]),
            forall|j: int| 0 <= j < m ==> entry_before_spec(heap@[m as int], #[trigger] heap@[j]),
        decreases heap@.len() - k,
    {
        if entry_before(&heap[k], &heap[m]) {
            proof {
                assert forall|j: int| 0 <= j < k + 1 implies !entry_before_spec(#[trigger] heap@[j], heap@[k as int]) by {
                    lemma_entry_order(heap@[j], heap@[k as int], heap@[m as int]);
                }
                assert forall|j: int| 0 <= j < k implies entry_before_spec(heap@[k as int], #[trigger] heap@[j]) by {
                    lemma_entry_order(heap@[k as int], heap@[m as int], heap@[j]);
                    lemma_entry_order(heap@[m as int], heap@[j], heap@[j]);
                }
            }
            m = k;
        }
        k = k + 1;
    }
    m
}

/// Removes entry `m` by moving the last entry into its place.
fn entry_take(heap: &mut Vec<(i64, usize, usize, u8, Option<usize>)>, m: usize) -> (e: (i64, usize, usize, u8, Option<usize>))
    requires
        m < old(heap)@.len(),
    ensures
        e == old(heap)@[m as int],
        final(heap)@.len() == old(heap)@.len() - 1,
        forall|k: int|
            0 <= k < final(heap)@.len() ==> exists|j: int|
                0 <= j < old(heap)@.len() && j != m && #[trigger] final(heap)@[k] == old(heap)@[j],
        forall|j: int|
            0 <= j < old(heap)@.len() && j != m ==> exists|k: int|
                0 <= k < final(heap)@.len() && final(heap)@[k] == #[trigger] old(heap)@[j],
{
    let e = heap[m];
    let last = heap.len() - 1;
    let ghost h0 = heap@;
    let t = heap[last];
    heap.set(m, t);
    heap.pop();
    proof {
        let h1 = h0.update(m as int, t);
        assert(heap@ =~= h1.drop_last());
        assert forall|k: int| 0 <= k < heap@.len() implies exists|j: int|
            0 <= j < h0.len() && j != m && #[trigger] heap@[k] == h0[j] by {
            assert(heap@[k] == h1[k]);
            if k == m {
                assert(h1[k] == h0[last as int]);
                assert(last != m);
            } else {
                assert(h1[k] == h0[k]);
            }
        }
        assert forall|j: int| 0 <= j < h0.len() && j != m implies exists|k: int|
            0 <= k < heap@.len() && heap@[k] == #[trigger] h0[j] by {
            if j == last {
                assert(heap@[m as int] == h0[j]);
            } else {
                assert(heap@[j] == h0[j]);
            }
        }
    }
    e
}

/// The node a search entry stands for.
pub open spec fn entry_node(e: (i64, usize, usize, u8, Option<usize>)) -> ClusterIslandId {
    ClusterIslandId { cluster: (e.1, e.2), island: IslandId(e.3) }
}

/// Invariant of the routing search from node `s`, apart from which reached
/// nodes are still pending: distances, recorded first portals, pending
/// entries and the (ghost) set of nodes whose crossings were all followed.
pub open spec fn search_core(
    g: &HierarchicalGraph,
    s: ClusterIslandId,
    dist: Seq<Option<i64>>,
    next: Seq<Option<usize>>,
    heap: Seq<(i64, usize, usize, u8, Option<usize>)>,
    done: Seq<bool>,
) -> bool {
    let cap = g.total_island_capacity as int;
    let bound = (reach_count(dist) - 1) * ISLAND_EDGE_BOUND;
    &&& dist.len() == cap
    &&& next.len() == cap
    &&& done.len() == cap
    &&& dist[node_index(g, s)] == Some(0i64)
    &&& next[node_index(g, s)] is None
    &&& forall|l: int| 0 <= l < cap ==> (#[trigger] dist[l] matches Some(d) ==> 0 <= d <= bound)
    &&& forall|k: int|
        0 <= k < heap.len() ==> {
            let e = #[trigger] heap[k];
            let u = entry_node(e);
            &&& node_in_grid(g, u)
            &&& (dist[node_index(g, u)] matches Some(d) && d <= e.0)
            &&& e.0 <= bound
            &&& (e.4 matches Some(p) ==> u != s && first_portal_ok(g, s, p, u))
            &&& (e.4 is None ==> u == s)
        }
    &&& forall|v: ClusterIslandId|
        node_in_grid(g, v) && (#[trigger] next[node_index(g, v)]) is Some ==> v != s && first_portal_ok(
            g,
            s,
            next[node_index(g, v)]->0,
            v,
        )
    &&& forall|v: ClusterIslandId|
        node_in_grid(g, v) && #[trigger] done[node_index(g, v)] ==> {
            &&& dist[node_index(g, v)] is Some
            &&& (v != s ==> next[node_index(g, v)] is Some)
            &&& forall|d: int, k: int|
                (#[trigger] hop_target(g, v, d, k)) is Some ==> dist[node_index(g, hop_target(g, v, d, k)->0)] is Some
        }
}

/// Every reached node other than `skip` is done or has a pending entry at
/// its distance.
pub open spec fn all_pending(
    g: &HierarchicalGraph,
    dist: Seq<Option<i64>>,
    heap: Seq<(i64, usize, usize, u8, Option<usize>)>,
    done: Seq<bool>,
    skip: Option<ClusterIslandId>,
) -> bool {
    forall|v: ClusterIslandId|
        node_in_grid(g, v) && skip != Some(v) && (#[trigger] dist[node_index(g, v)]) is Some ==> done[node_index(g, v)]
            || exists|k: int| 0 <= k < heap.len() && entry_node(heap[k]) == v && Some(#[trigger] heap[k].0) == dist[node_index(g, v)]
}

/// Every node reachable from `s` has been reached once every reached node is done.
proof fn lemma_search_closed(
    g: &HierarchicalGraph,
    s: ClusterIslandId,
    dist: Seq<Option<i64>>,
    done: Seq<bool>,
    p: Seq<ClusterIslandId>,
)
    requires
        routing_ready(g),
        node_in_grid(g, s),
        dist[node_index(g, s)] is Some,
        forall|v: ClusterIslandId|
            node_in_grid(g, v) && (#[trigger] dist[node_index(g, v)]) is Some ==> done[node_index(g, v)],
        forall|v: ClusterIslandId|
            node_in_grid(g, v) && #[trigger] done[node_index(g, v)] ==> forall|d: int, k: int|
                (#[trigger] hop_target(g, v, d, k)) is Some ==> dist[node_index(g, hop_target(g, v, d, k)->0)] is Some,
        island_walk(g, p),
        p[0] == s,
    ensures
        node_in_grid(g, p.last()),
        dist[node_index(g, p.last())] is Some,
    decreases p.len(),
{
    if p.len() > 1 {
        let q = p.drop_last();
        assert forall|i: int| 0 <= i < q.len() - 1 implies #[trigger] island_step(g, q[i], q[i + 1]) by {
            assert(q[i] == p[i] && q[i + 1] == p[i + 1]);
        }
        lemma_search_closed(g, s, dist, done, q);
        let i = p.len() - 2;
        assert(island_step(g, p[i], p[i + 1]));
        assert(q.last() == p[i]);
        let (d, k) = choose|d: int, k: int| #[trigger] hop_target(g, p[i], d, k) == Some(p[i + 1]);
        lemma_hop_in_grid(g, p[i], d, k);
        assert(done[node_index(g, p[i])]);
    }
}

proof fn lemma_capacity_bound(cap: int)
    requires
        0 <= cap,
        cap * cap <= usize::MAX,
    ensures
        cap <= 0x1_0000_0000,
{
    if cap > 0x1_0000_0000 {
        assert(cap * cap > 0x1_0000_0000 * 0x1_0000_0000) by (nonlinear_arith)
            requires
                cap > 0x1_0000_0000,
        ;
    }
}

/// Termination weight of an unreached node in a search over `g`.
pub open spec fn unreached_weight(g: &HierarchicalGraph) -> int {
    g.total_island_capacity * ISLAND_EDGE_BOUND + 2
}

proof fn lemma_first_portal_extend(
    g: &HierarchicalGraph,
    s: ClusterIslandId,
    u: ClusterIslandId,
    fp: Option<usize>,
    p: usize,
    d: int,
    k: int,
    w: ClusterIslandId,
)
    requires
        portal_of(g, u, d) == Some(p),
        hop_target(g, u, d, k) == Some(w),
        u != s ==> (fp matches Some(f) && first_portal_ok(g, s, f, u)),
    ensures
        first_portal_ok(g, s, if u == s { p } else { fp->0 }, w),
{
    if u == s {
        lemma_reachable_refl(g, w);
        assert(hop_target(g, s, d, k) == Some(w));
    } else {
        let f = fp->0;
        let (d0, k0) = choose|d0: int, k0: int|
            #![trigger hop_target(g, s, d0, k0)]
            portal_of(g, s, d0) == Some(f) && hop_target(g, s, d0, k0) is Some && island_reachable(
                g,
                hop_target(g, s, d0, k0)->0,
                u,
            );
        assert(island_step(g, u, w));
        lemma_reachable_step(g, hop_target(g, s, d0, k0)->0, u, w);
    }
}

/// Cost of crossing from island `u` through its portal in direction `d` and
/// that portal's `k`-th connection.
pub open spec fn hop_cost(g: &HierarchicalGraph, u: ClusterIslandId, d: int, k: int) -> int {
    g.portal_connections@[portal_of(g, u, d)->0 as int]@[k].1.bits as int
}

/// A walk through islands `p`, crossing at each step the portal in direction
/// `ds[i]` and its connection `ks[i]`.
pub open spec fn island_wwalk(g: &HierarchicalGraph, p: Seq<ClusterIslandId>, ds: Seq<int>, ks: Seq<int>) -> bool {
    &&& p.len() == ds.len() + 1
    &&& ds.len() == ks.len()
    &&& forall|i: int| 0 <= i < ds.len() ==> #[trigger] hop_target(g, p[i], ds[i], ks[i]) == Some(p[i + 1])
}

/// Summed connection costs of such a walk.
pub open spec fn iwalk_cost(g: &HierarchicalGraph, p: Seq<ClusterIslandId>, ds: Seq<int>, ks: Seq<int>) -> int
    decreases ds.len(),
{
    if ds.len() == 0 || ks.len() == 0 || p.len() < 2 {
        0
    } else {
        iwalk_cost(g, p.drop_last(), ds.drop_last(), ks.drop_last()) + hop_cost(g, p[p.len() - 2], ds.last(), ks.last())
    }
}

/// No walk from `s` to `v` costs less than `c`.
pub open spec fn no_cheaper_iwalk(g: &HierarchicalGraph, s: ClusterIslandId, v: ClusterIslandId, c: int) -> bool {
    forall|p: Seq<ClusterIslandId>, ds: Seq<int>, ks: Seq<int>|
        #[trigger] island_wwalk(g, p, ds, ks) && p[0] == s && p.last() == v ==> iwalk_cost(g, p, ds, ks) >= c
}

/// Some walk from `s` to `v` costs `c` and, where `s` and `v` differ, leaves
/// `s` through portal `fp`.
pub open spec fn iwalk_of_cost(g: &HierarchicalGraph, s: ClusterIslandId, v: ClusterIslandId, c: int, fp: Option<usize>) -> bool {
    exists|p: Seq<ClusterIslandId>, ds: Seq<int>, ks: Seq<int>|
        #[trigger] island_wwalk(g, p, ds, ks) && p[0] == s && p.last() == v && iwalk_cost(g, p, ds, ks) == c && (s != v
            ==> fp == portal_of(g, s, ds[0]))
}

/// Portal `p` is the first portal of a least-cost walk from `s` to `v`.
pub open spec fn least_cost_portal(g: &HierarchicalGraph, s: ClusterIslandId, v: ClusterIslandId, p: usize) -> bool {
    exists|c: int| #[trigger] iwalk_of_cost(g, s, v, c, Some(p)) && no_cheaper_iwalk(g, s, v, c)
}

proof fn lemma_iwalk_extend(
    g: &HierarchicalGraph,
    p: Seq<ClusterIslandId>,
    ds: Seq<int>,
    ks: Seq<int>,
    d: int,
    k: int,
    w: ClusterIslandId,
)
    requires
        island_wwalk(g, p, ds, ks),
        hop_target(g, p.last(), d, k) == Some(w),
    ensures
        island_wwalk(g, p.push(w), ds.push(d), ks.push(k)),
        iwalk_cost(g, p.push(w), ds.push(d), ks.push(k)) == iwalk_cost(g, p, ds, ks) + hop_cost(g, p.last(), d, k),
        p.push(w)[0] == p[0],
        ds.push(d)[0] == if ds.len() > 0 { ds[0] } else { d },
{
    let q = p.push(w);
    let qd = ds.push(d);
    let qk = ks.push(k);
    assert(q.drop_last() =~= p);
    assert(qd.drop_last() =~= ds);
    assert(qk.drop_last() =~= ks);
    assert forall|i: int| 0 <= i < qd.len() implies #[trigger] hop_target(g, q[i], qd[i], qk[i]) == Some(q[i + 1]) by {
        if i < ds.len() {
            assert(q[i] == p[i] && qd[i] == ds[i] && qk[i] == ks[i] && q[i + 1] == p[i + 1]);
            assert(hop_target(g, p[i], ds[i], ks[i]) == Some(p[i + 1]));
        }
    }
}

proof fn lemma_iwalk_cost_nonneg(g: &HierarchicalGraph, p: Seq<ClusterIslandId>, ds: Seq<int>, ks: Seq<int>)
    requires
        routing_ready(g),
        island_wwalk(g, p, ds, ks),
    ensures
        iwalk_cost(g, p, ds, ks) >= 0,
    decreases ds.len(),
{
    if ds.len() > 0 {
        let q = p.drop_last();
        let qd = ds.drop_last();
        let qk = ks.drop_last();
        assert forall|i: int| 0 <= i < qd.len() implies #[trigger] hop_target(g, q[i], qd[i], qk[i]) == Some(q[i + 1]) by {
            assert(hop_target(g, p[i], ds[i], ks[i]) == Some(p[i + 1]));
        }
        lemma_iwalk_cost_nonneg(g, q, qd, qk);
        let n = ds.len() - 1;
        assert(hop_target(g, p[n], ds[n], ks[n]) == Some(p[n + 1]));
        let pp = portal_of(g, p[n], ds[n])->0 as int;
        assert(0 <= (g.portal_connections@[pp]@[ks[n]]).1.bits);
    }
}

/// A walk to `u` of cost `cost`, extended across one crossing, is a walk to
/// `w` leaving `s` through the portal the search records for it.
proof fn lemma_iwalk_step(
    g: &HierarchicalGraph,
    s: ClusterIslandId,
    u: ClusterIslandId,
    cost: int,
    fp: Option<usize>,
    pt: usize,
    d: int,
    k: int,
    w: ClusterIslandId,
)
    requires
        iwalk_of_cost(g, s, u, cost, fp),
        portal_of(g, u, d) == Some(pt),
        hop_target(g, u, d, k) == Some(w),
        u == s ==> cost == 0,
        u != s ==> fp is Some,
    ensures
        iwalk_of_cost(g, s, w, cost + hop_cost(g, u, d, k), Some(if u == s { pt } else { fp->0 })),
{
    let rec = if u == s { pt } else { fp->0 };
    if u == s {
        let p = seq![s];
        let ds = Seq::<int>::empty();
        let ks = Seq::<int>::empty();
        assert(island_wwalk(g, p, ds, ks));
        lemma_iwalk_extend(g, p, ds, ks, d, k, w);
        assert(iwalk_cost(g, p, ds, ks) == 0);
        let q = p.push(w);
        let qd = ds.push(d);
        let qk = ks.push(k);
        assert(island_wwalk(g, q, qd, qk) && q[0] == s && q.last() == w && iwalk_cost(g, q, qd, qk) == cost + hop_cost(g, u, d, k)
            && (s != w ==> Some(rec) == portal_of(g, s, qd[0])));
    } else {
        let (p, ds, ks) = choose|p: Seq<ClusterIslandId>, ds: Seq<int>, ks: Seq<int>|
            #[trigger] island_wwalk(g, p, ds, ks) && p[0] == s && p.last() == u && iwalk_cost(g, p, ds, ks) == cost && (s != u
                ==> fp == portal_of(g, s, ds[0]));
        lemma_iwalk_extend(g, p, ds, ks, d, k, w);
        let q = p.push(w);
        let qd = ds.push(d);
        let qk = ks.push(k);
        assert(ds.len() > 0);
        assert(island_wwalk(g, q, qd, qk) && q[0] == s && q.last() == w && iwalk_cost(g, q, qd, qk) == cost + hop_cost(g, u, d, k)
            && (s != w ==> Some(rec) == portal_of(g, s, qd[0])));
    }
}

/// Every reached node not yet settled costs at least `cost`; then every walk
/// from `s` costs at least `cost` or ends at a settled node.
proof fn lemma_iwalk_bound(
    g: &HierarchicalGraph,
    s: ClusterIslandId,
    dist: Seq<Option<i64>>,
    done: Seq<bool>,
    cost: int,
    p: Seq<ClusterIslandId>,
    ds: Seq<int>,
    ks: Seq<int>,
)
    requires
        routing_ready(g),
        node_in_grid(g, s),
        dist[node_index(g, s)] == Some(0i64),
        forall|v: ClusterIslandId|
            node_in_grid(g, v) && #[trigger] done[node_index(g, v)] ==> dist[node_index(g, v)] is Some && no_cheaper_iwalk(
                g,
                s,
                v,
                dist[node_index(g, v)]->0 as int,
            ),
        forall|v: ClusterIslandId, d: int, k: int|
            node_in_grid(g, v) && done[node_index(g, v)] && (#[trigger] hop_target(g, v, d, k)) is Some ==> {
                let w = hop_target(g, v, d, k)->0;
                &&& dist[node_index(g, w)] is Some
                &&& dist[node_index(g, w)]->0 <= dist[node_index(g, v)]->0 + hop_cost(g, v, d, k)
            },
        forall|v: ClusterIslandId|
            node_in_grid(g, v) && (#[trigger] dist[node_index(g, v)]) is Some && !done[node_index(g, v)] ==> cost
                <= dist[node_index(g, v)]->0,
        island_wwalk(g, p, ds, ks),
        p[0] == s,
    ensures
        node_in_grid(g, p.last()),
        iwalk_cost(g, p, ds, ks) >= cost || done[node_index(g, p.last())],
    decreases ds.len(),
{
    if ds.len() == 0 {
        assert(p.last() == s);
    } else {
        let q = p.drop_last();
        let qd = ds.drop_last();
        let qk = ks.drop_last();
        assert forall|i: int| 0 <= i < qd.len() implies #[trigger] hop_target(g, q[i], qd[i], qk[i]) == Some(q[i + 1]) by {
            assert(hop_target(g, p[i], ds[i], ks[i]) == Some(p[i + 1]));
        }
        assert(island_wwalk(g, q, qd, qk));
        lemma_iwalk_bound(g, s, dist, done, cost, q, qd, qk);
        lemma_iwalk_cost_nonneg(g, q, qd, qk);
        let n = ds.len() - 1;
        let x = q.last();
        assert(x == p[n]);
        assert(hop_target(g, p[n], ds[n], ks[n]) == Some(p[n + 1]));
        lemma_hop_in_grid(g, x, ds[n], ks[n]);
        let y = p.last();
        assert(iwalk_cost(g, p, ds, ks) == iwalk_cost(g, q, qd, qk) + hop_cost(g, x, ds[n], ks[n]));
        let pp = portal_of(g, x, ds[n])->0 as int;
        assert(0 <= (g.portal_connections@[pp]@[ks[n]]).1.bits);
        if iwalk_cost(g, q, qd, qk) < cost {
            assert(done[node_index(g, x)]);
            assert(no_cheaper_iwalk(g, s, x, dist[node_index(g, x)]->0 as int));
            assert(iwalk_cost(g, q, qd, qk) >= dist[node_index(g, x)]->0);
        }
    }
}

/// The costs behind a search from `s`: each pending entry stands for a walk
/// of its cost leaving `s` through its portal; each settled node has no
/// cheaper walk than its distance, one of that cost through its recorded
/// portal, and every crossing out of it relaxed.
pub open spec fn search_costs(
    g: &HierarchicalGraph,
    s: ClusterIslandId,
    dist: Seq<Option<i64>>,
    next: Seq<Option<usize>>,
    heap: Seq<(i64, usize, usize, u8, Option<usize>)>,
    done: Seq<bool>,
) -> bool {
    &&& forall|k: int| 0 <= k < heap.len() ==> iwalk_of_cost(g, s, entry_node(#[trigger] heap[k]), heap[k].0 as int, heap[k].4)
    &&& forall|v: ClusterIslandId|
        node_in_grid(g, v) && #[trigger] done[node_index(g, v)] ==> no_cheaper_iwalk(g, s, v, dist[node_index(g, v)]->0 as int)
            && (v != s ==> iwalk_of_cost(g, s, v, dist[node_index(g, v)]->0 as int, next[node_index(g, v)]))
    &&& forall|v: ClusterIslandId, d: int, k: int|
        node_in_grid(g, v) && done[node_index(g, v)] && (#[trigger] hop_target(g, v, d, k)) is Some ==> dist[node_index(
            g,
            hop_target(g, v, d, k)->0,
        )]->0 <= dist[node_index(g, v)]->0 + hop_cost(g, v, d, k)
}

impl HierarchicalGraph {
    /// Records that node `w` (at index `wi`) is reached at `new_cost`, more
    /// cheaply than before, by a route whose first portal is `rec`.
    fn push_improvement(
        &self,
        s: ClusterIslandId,
        u: ClusterIslandId,
        w: ClusterIslandId,
        wi: usize,
        new_cost: i64,
        rec: usize,
        dist: &mut Vec<Option<i64>>,
        heap: &mut Vec<(i64, usize, usize, u8, Option<usize>)>,
        Ghost(next): Ghost<Seq<Option<usize>>>,
        Ghost(done): Ghost<Seq<bool>>,
    )
        requires
            routing_ready(self),
            node_in_grid(self, s),
            node_in_grid(self, u),
            node_in_grid(self, w),
            wi == node_index(self, w),
            w != u,
            w != s,
            search_core(self, s, old(dist)@, next, old(heap)@, done),
            all_pending(self, old(dist)@, old(heap)@, done, Some(u)),
            old(dist)@[wi as int] matches Some(o) ==> new_cost < o,
            0 <= new_cost <= reach_count(old(dist)@) * ISLAND_EDGE_BOUND,
            first_portal_ok(self, s, rec, w),
            search_costs(self, s, old(dist)@, next, old(heap)@, done),
            !done[wi as int],
            iwalk_of_cost(self, s, w, new_cost as int, Some(rec)),
        ensures
            search_core(self, s, final(dist)@, next, final(heap)@, done),
            search_costs(self, s, final(dist)@, next, final(heap)@, done),
            all_pending(self, final(dist)@, final(heap)@, done, Some(u)),
            final(dist)@ == old(dist)@.update(wi as int, Some(new_cost)),
            final(heap)@.len() == old(heap)@.len() + 1,
            search_potential(final(dist)@, unreached_weight(self)) < search_potential(old(dist)@, unreached_weight(self)),
    {
        let ghost dist1 = dist@;
        let ghost heap1 = heap@;
        let ghost big = unreached_weight(self);
        let ghost cap = self.total_island_capacity as int;
        proof {
            lemma_node_index(self, w);
            lemma_node_index(self, u);
            lemma_node_index(self, s);
            lemma_reach_update(dist1, big, wi as int, new_cost);
            lemma_reach_bounds(dist1);
            lemma_capacity_bound(cap);
            assert(reach_count(dist1) * ISLAND_EDGE_BOUND <= cap * ISLAND_EDGE_BOUND) by (nonlinear_arith)
                requires
                    reach_count(dist1) <= cap,
            ;
        }
        dist.set(wi, Some(new_cost));
        heap.push((new_cost, w.cluster.0, w.cluster.1, w.island.0, Some(rec)));
        proof {
            assert(entry_node(heap@[heap1.len() as int]) == w);
            assert forall|l: int| 0 <= l < cap implies (#[trigger] dist@[l] matches Some(dd) ==> 0 <= dd <= (reach_count(dist@) - 1) * ISLAND_EDGE_BOUND) by {
                assert(dist1[l] matches Some(dd) ==> 0 <= dd <= (reach_count(dist1) - 1) * ISLAND_EDGE_BOUND);
            }
            assert forall|j: int| 0 <= j < heap@.len() implies {
                let e = #[trigger] heap@[j];
                let v = entry_node(e);
                &&& node_in_grid(self, v)
                &&& (dist@[node_index(self, v)] matches Some(dd) && dd <= e.0)
                &&& e.0 <= (reach_count(dist@) - 1) * ISLAND_EDGE_BOUND
                &&& (e.4 matches Some(pp) ==> v != s && first_portal_ok(self, s, pp, v))
                &&& (e.4 is None ==> v == s)
            } by {
                assert(reach_count(dist@) >= reach_count(dist1));
                if j < heap1.len() {
                    assert(heap@[j] == heap1[j]);
                    let v = entry_node(heap1[j]);
                    assert(node_in_grid(self, v));
                    lemma_node_index(self, v);
                    if node_index(self, v) == wi {
                        lemma_node_index_injective(self, v, w);
                        assert(dist@[wi as int] == Some(new_cost));
                    } else {
                        assert(dist@[node_index(self, v)] == dist1[node_index(self, v)]);
                    }
                } else {
                    assert(j == heap1.len());
                    assert(heap@[j] == (new_cost, w.cluster.0, w.cluster.1, w.island.0, Some(rec)));
                    assert(dist1[wi as int] matches Some(o) ==> 0 <= o <= (reach_count(dist1) - 1) * ISLAND_EDGE_BOUND);
                    assert(dist@[wi as int] == Some(new_cost));
                    assert(entry_node(heap@[j]) == w);
                }
            }
            assert forall|v: ClusterIslandId|
                node_in_grid(self, v) && (#[trigger] next[node_index(self, v)]) is Some implies v != s && first_portal_ok(
                    self,
                    s,
                    next[node_index(self, v)]->0,
                    v,
                ) by {}
            assert forall|v: ClusterIslandId|
                node_in_grid(self, v) && #[trigger] done[node_index(self, v)] implies {
                    &&& dist@[node_index(self, v)] is Some
                    &&& (v != s ==> next[node_index(self, v)] is Some)
                    &&& forall|d3: int, k3: int|
                        (#[trigger] hop_target(self, v, d3, k3)) is Some ==> dist@[node_index(self, hop_target(self, v, d3, k3)->0)] is Some
                } by {
                lemma_node_index(self, v);
                assert forall|d3: int, k3: int|
                    (#[trigger] hop_target(self, v, d3, k3)) is Some implies dist@[node_index(self, hop_target(self, v, d3, k3)->0)] is Some by {
                    lemma_hop_in_grid(self, v, d3, k3);
                    lemma_node_index(self, hop_target(self, v, d3, k3)->0);
                    assert(dist1[node_index(self, hop_target(self, v, d3, k3)->0)] is Some);
                }
            }
            assert forall|v: ClusterIslandId|
                node_in_grid(self, v) && Some(u) != Some(v) && (#[trigger] dist@[node_index(self, v)]) is Some implies done[node_index(self, v)]
                    || exists|j: int| 0 <= j < heap@.len() && entry_node(heap@[j]) == v && Some(#[trigger] heap@[j].0) == dist@[node_index(self, v)] by {
                lemma_node_index(self, v);
                if v == w {
                    assert(heap@[heap1.len() as int].0 == new_cost);
                } else {
                    if node_index(self, v) == wi {
                        lemma_node_index_injective(self, v, w);
                    }
                    if !done[node_index(self, v)] {
                        let j0 = choose|j: int| 0 <= j < heap1.len() && entry_node(heap1[j]) == v && Some(#[trigger] heap1[j].0) == dist1[node_index(self, v)];
                        assert(heap@[j0] == heap1[j0]);
                    }
                }
            }
            assert(dist@[node_index(self, s)] == Some(0i64)) by {
                if node_index(self, s) == wi {
                    lemma_node_index_injective(self, s, w);
                }
            }
            assert forall|j: int| 0 <= j < heap@.len() implies iwalk_of_cost(self, s, entry_node(#[trigger] heap@[j]), heap@[j].0 as int, heap@[j].4) by {
                if j < heap1.len() {
                    assert(heap@[j] == heap1[j]);
                } else {
                    assert(heap@[j] == (new_cost, w.cluster.0, w.cluster.1, w.island.0, Some(rec)));
                    assert(entry_node(heap@[j]) == w);
                }
            }
            assert forall|v: ClusterIslandId|
                node_in_grid(self, v) && #[trigger] done[node_index(self, v)] implies no_cheaper_iwalk(self, s, v, dist@[node_index(self, v)]->0 as int)
                    && (v != s ==> iwalk_of_cost(self, s, v, dist@[node_index(self, v)]->0 as int, next[node_index(self, v)])) by {
                lemma_node_index(self, v);
                if node_index(self, v) == wi {
                    lemma_node_index_injective(self, v, w);
                }
                assert(dist@[node_index(self, v)] == dist1[node_index(self, v)]);
            }
            assert forall|v: ClusterIslandId, d3: int, k3: int|
                node_in_grid(self, v) && done[node_index(self, v)] && (#[trigger] hop_target(self, v, d3, k3)) is Some implies dist@[node_index(
                    self,
                    hop_target(self, v, d3, k3)->0,
                )]->0 <= dist@[node_index(self, v)]->0 + hop_cost(self, v, d3, k3) by {
                lemma_node_index(self, v);
                if node_index(self, v) == wi {
                    lemma_node_index_injective(self, v, w);
                }
                assert(dist@[node_index(self, v)] == dist1[node_index(self, v)]);
                let t = hop_target(self, v, d3, k3)->0;
                lemma_hop_in_grid(self, v, d3, k3);
                lemma_node_index(self, t);
                assert(dist1[node_index(self, t)] is Some);
                assert(dist1[node_index(self, t)]->0 <= dist1[node_index(self, v)]->0 + hop_cost(self, v, d3, k3));
            }
        }
    }

    /// Follows every crossing out of node `u`, reached at `cost`: each
    /// island reached more cheaply than before gets the new cost and a
    /// pending entry carrying the first portal of the route (the portal
    /// taken, when `u` is the source `s`; otherwise `fp`, that of `u`).
    fn relax_from(
        &self,
        s: ClusterIslandId,
        u: ClusterIslandId,
        cost: i64,
        fp: Option<usize>,
        dist: &mut Vec<Option<i64>>,
        heap: &mut Vec<(i64, usize, usize, u8, Option<usize>)>,
        Ghost(next): Ghost<Seq<Option<usize>>>,
        Ghost(done): Ghost<Seq<bool>>,
    )
        requires
            routing_ready(self),
            node_in_grid(self, s),
            node_in_grid(self, u),
            search_core(self, s, old(dist)@, next, old(heap)@, done),
            all_pending(self, old(dist)@, old(heap)@, done, Some(u)),
            old(dist)@[node_index(self, u)] == Some(cost),
            u != s ==> (fp matches Some(f) && first_portal_ok(self, s, f, u)),
            search_costs(self, s, old(dist)@, next, old(heap)@, done),
            iwalk_of_cost(self, s, u, cost as int, fp),
        ensures
            search_core(self, s, final(dist)@, next, final(heap)@, done),
            search_costs(self, s, final(dist)@, next, final(heap)@, done),
            all_pending(self, final(dist)@, final(heap)@, done, Some(u)),
            final(dist)@[node_index(self, u)] == Some(cost),
            forall|d: int, k: int|
                (#[trigger] hop_target(self, u, d, k)) is Some ==> final(dist)@[node_index(self, hop_target(self, u, d, k)->0)] is Some
                    && final(dist)@[node_index(self, hop_target(self, u, d, k)->0)]->0 <= cost + hop_cost(self, u, d, k),
            search_potential(final(dist)@, unreached_weight(self)) <= search_potential(old(dist)@, unreached_weight(self)),
            final(heap)@.len() >= old(heap)@.len(),
            search_potential(final(dist)@, unreached_weight(self)) == search_potential(old(dist)@, unreached_weight(self)) ==> final(heap)@.len()
                == old(heap)@.len(),
    {
        let ghost dist0 = dist@;
        let ghost heap0 = heap@;
        let ghost big = unreached_weight(self);
        let ghost cap = self.total_island_capacity as int;
        proof {
            lemma_capacity_bound(cap);
            lemma_node_index(self, u);
            lemma_node_index(self, s);
        }
        let cols = self.cluster_cols;
        let (x, y) = u.cluster;
        let isl = u.island.0;
        match self.get_cluster(x, y) {
            None => {},
            Some(cluster) => {
                proof {
                    assert(y * cols + x < cols * self.cluster_rows) by (nonlinear_arith)
                        requires
                            x < cols,
                            y < self.cluster_rows,
                    ;
                    assert(self.cluster_storage@[y * cols + x] is Some);
                    assert(cluster.wf());
                }
                let mut d: usize = 0;
                while d < 8
                    invariant
                        routing_ready(self),
                        node_in_grid(self, s),
                        node_in_grid(self, u),
                        cap == self.total_island_capacity,
                        cap <= 0x1_0000_0000,
                        big == unreached_weight(self),
                        cols == self.cluster_cols,
                        u.cluster == (x, y),
                        u.island.0 == isl,
                        self.cluster_at(x as int, y as int) == Some(*cluster),
                        cluster.wf(),
                        0 <= node_index(self, u) < cap,
                        0 <= node_index(self, s) < cap,
                        search_core(self, s, dist@, next, heap@, done),
                        all_pending(self, dist@, heap@, done, Some(u)),
                        dist@[node_index(self, u)] == Some(cost),
                        u != s ==> (fp matches Some(f) && first_portal_ok(self, s, f, u)),
                        search_potential(dist@, big) <= search_potential(dist0, big),
                        heap@.len() >= heap0.len(),
                        search_potential(dist@, big) == search_potential(dist0, big) ==> heap@.len() == heap0.len(),
                        d <= 8,
                        forall|d2: int, k2: int|
                            0 <= d2 < d && (#[trigger] hop_target(self, u, d2, k2)) is Some ==> dist@[node_index(
                                self,
                                hop_target(self, u, d2, k2)->0,
                            )] is Some && dist@[node_index(self, hop_target(self, u, d2, k2)->0)]->0 <= cost + hop_cost(self, u, d2, k2),
                        search_costs(self, s, dist@, next, heap@, done),
                        iwalk_of_cost(self, s, u, cost as int, fp),
                    decreases 8 - d,
                {
                    let np_opt = cluster.neighbor_portal(isl as usize, d);
                    proof {
                        assert(portal_of(self, u, d as int) == np_opt);
                    }
                    match np_opt {
                        None => {},
                        Some(p) => {
                            if p < self.portals.len() && p < self.portal_connections.len() {
                                let conn = &self.portal_connections[p];
                                let n = conn.len();
                                let mut k: usize = 0;
                                while k < n
                                    invariant
                                        routing_ready(self),
                                        node_in_grid(self, s),
                                        node_in_grid(self, u),
                                        cap == self.total_island_capacity,
                                        cap <= 0x1_0000_0000,
                                        big == unreached_weight(self),
                                        cols == self.cluster_cols,
                                        d < 8,
                                        portal_of(self, u, d as int) == Some(p),
                                        p < self.portals@.len(),
                                        p < self.portal_connections@.len(),
                                        conn@ == self.portal_connections@[p as int]@,
                                        0 <= node_index(self, u) < cap,
                                        0 <= node_index(self, s) < cap,
                                        n == conn@.len(),
                                        k <= n,
                                        search_core(self, s, dist@, next, heap@, done),
                                        all_pending(self, dist@, heap@, done, Some(u)),
                                        dist@[node_index(self, u)] == Some(cost),
                                        u != s ==> (fp matches Some(f) && first_portal_ok(self, s, f, u)),
                                        search_potential(dist@, big) <= search_potential(dist0, big),
                                        heap@.len() >= heap0.len(),
                                        search_potential(dist@, big) == search_potential(dist0, big) ==> heap@.len() == heap0.len(),
                                        forall|d2: int, k2: int|
                                            (0 <= d2 < d || (d2 == d && k2 < k)) && (#[trigger] hop_target(self, u, d2, k2)) is Some
                                                ==> dist@[node_index(self, hop_target(self, u, d2, k2)->0)] is Some
                                                && dist@[node_index(self, hop_target(self, u, d2, k2)->0)]->0 <= cost + hop_cost(self, u, d2, k2),
                                        search_costs(self, s, dist@, next, heap@, done),
                                        iwalk_of_cost(self, s, u, cost as int, fp),
                                    decreases n - k,
                                {
                                    let (np, ec) = conn[k];
                                    if np < self.portals.len() && np < self.portal_island_map.len() {
                                        match self.portal_island_map[np] {
                                            None => {},
                                            Some(ni) => {
                                                let (wx, wy) = self.portals[np].cluster;
                                                let w = ClusterIslandId { cluster: (wx, wy), island: ni };
                                                proof {
                                                    assert(hop_target(self, u, d as int, k as int) == Some(w));
                                                    lemma_hop_in_grid(self, u, d as int, k as int);
                                                    lemma_node_index(self, w);
                                                    assert(wy * cols <= wy * cols + wx);
                                                    assert((wy * cols + wx) * MAX_ISLANDS <= node_index(self, w));
                                                    assert(0 <= ec.bits <= ISLAND_EDGE_BOUND) by {
                                                        assert(0 <= (self.portal_connections@[p as int]@[k as int]).1.bits <= ISLAND_EDGE_BOUND);
                                                    }
                                                    lemma_reach_bounds(dist@);
                                                    assert(cost <= (reach_count(dist@) - 1) * ISLAND_EDGE_BOUND);
                                                    assert(reach_count(dist@) * ISLAND_EDGE_BOUND <= 0x1_0000_0000 * ISLAND_EDGE_BOUND) by (nonlinear_arith)
                                                        requires
                                                            reach_count(dist@) <= 0x1_0000_0000,
                                                    ;
                                                }
                                                let wi = (wy * cols + wx) * MAX_ISLANDS + ni.0 as usize;
                                                let new_cost = cost + ec.bits;
                                                proof {
                                                    assert(hop_cost(self, u, d as int, k as int) == ec.bits);
                                                }
                                                let improve = match dist[wi] {
                                                    None => true,
                                                    Some(o) => new_cost < o,
                                                };
                                                if improve {
                                                    let rec = if u == s {
                                                        p
                                                    } else {
                                                        match fp {
                                                            Some(f) => f,
                                                            None => p,
                                                        }
                                                    };
                                                    proof {
                                                        lemma_first_portal_extend(self, s, u, fp, p, d as int, k as int, w);
                                                        assert(w != u);
                                                        assert(w != s);
                                                        if u == s {
                                                            assert(cost == 0);
                                                        }
                                                        lemma_iwalk_step(self, s, u, cost as int, fp, p, d as int, k as int, w);
                                                        assert(rec == if u == s { p } else { fp->0 });
                                                        if done[wi as int] {
                                                            assert(done[node_index(self, w)]);
                                                            let o = dist@[wi as int]->0 as int;
                                                            assert(no_cheaper_iwalk(self, s, w, o));
                                                            let (pw, dw, kw) = choose|pw: Seq<ClusterIslandId>, dw: Seq<int>, kw: Seq<int>|
                                                                #[trigger] island_wwalk(self, pw, dw, kw) && pw[0] == s && pw.last() == w && iwalk_cost(self, pw, dw, kw) == new_cost
                                                                    && (s != w ==> Some(rec) == portal_of(self, s, dw[0]));
                                                            assert(false);
                                                        }
                                                    }
                                                    let ghost dist1 = dist@;
                                                    self.push_improvement(s, u, w, wi, new_cost, rec, dist, heap, Ghost(next), Ghost(done));
                                                    proof {
                                                        if node_index(self, u) == wi {
                                                            lemma_node_index_injective(self, u, w);
                                                        }
                                                        assert forall|d2: int, k2: int|
                                                            (0 <= d2 < d || (d2 == d && k2 < k + 1)) && (#[trigger] hop_target(self, u, d2, k2)) is Some
                                                                implies dist@[node_index(self, hop_target(self, u, d2, k2)->0)] is Some
                                                                && dist@[node_index(self, hop_target(self, u, d2, k2)->0)]->0 <= cost + hop_cost(self, u, d2, k2) by {
                                                            lemma_hop_in_grid(self, u, d2, k2);
                                                            lemma_node_index(self, hop_target(self, u, d2, k2)->0);
                                                            if !(d2 == d && k2 == k) {
                                                                assert(dist1[node_index(self, hop_target(self, u, d2, k2)->0)] is Some);
                                                                if node_index(self, hop_target(self, u, d2, k2)->0) == wi {
                                                                    lemma_node_index_injective(self, hop_target(self, u, d2, k2)->0, w);
                                                                }
                                                            } else {
                                                                lemma_node_index_injective(self, hop_target(self, u, d2, k2)->0, w);
                                                            }
                                                        }
                                                    }
                                                }
                                            },
                                        }
                                    }
                                    k = k + 1;
                                }
                            }
                        },
                    }
                    d = d + 1;
                }
            },
        }
    }
}

impl HierarchicalGraph {
    /// Cheapest-first search over portal crossings from node `s`: for every
    /// node of the grid other than `s`, the first portal of the route by
    /// which the search settled it, or `None` where it cannot be reached.
    #[verifier::rlimit(50)]
    #[verifier::spinoff_prover]
    fn routes_from(&self, s: ClusterIslandId) -> (next: Vec<Option<usize>>)
        requires
            routing_ready(self),
            node_in_grid(self, s),
        ensures
            next@.len() == self.total_island_capacity,
            forall|v: ClusterIslandId|
                node_in_grid(self, v) ==> {
                    let e = #[trigger] next@[node_index(self, v)];
                    if v == s {
                        e is None
                    } else {
                        &&& (e is Some <==> island_reachable(self, s, v))
                        &&& (e matches Some(p) ==> first_portal_ok(self, s, p, v))
                        &&& (e matches Some(p) ==> least_cost_portal(self, s, v, p))
                    }
                },
    {
        let cap = self.total_island_capacity;
        let ghost big = unreached_weight(self);
        let mut dist: Vec<Option<i64>> = Vec::new();
        let mut next: Vec<Option<usize>> = Vec::new();
        let mut i: usize = 0;
        while i < cap
            invariant
                i <= cap,
                dist@.len() == i,
                next@.len() == i,
                forall|j: int| 0 <= j < i ==> (#[trigger] dist@[j]) is None && next@[j] is None,
            decreases cap - i,
        {
            dist.push(None);
            next.push(None);
            i = i + 1;
        }
        let ghost mut done: Seq<bool> = Seq::new(cap as nat, |j: int| false);
        proof {
            assert forall|j: int| 0 <= j < cap implies #[trigger] next@[j] is None by {
                assert(dist@[j] is None);
            }
            lemma_node_index(self, s);
            lemma_reach_zero(dist@);
            lemma_reach_update(dist@, big, node_index(self, s), 0);
        }
        let cols = self.cluster_cols;
        let (sx, sy) = s.cluster;
        proof {
            assert(sy * cols <= sy * cols + sx);
            assert((sy * cols + sx) * MAX_ISLANDS <= node_index(self, s));
        }
        let si = (sy * cols + sx) * MAX_ISLANDS + s.island.0 as usize;
        dist.set(si, Some(0));
        let mut heap: Vec<(i64, usize, usize, u8, Option<usize>)> = Vec::new();
        heap.push((0, sx, sy, s.island.0, None));
        proof {
            assert(entry_node(heap@[0]) == s);
            assert forall|v: ClusterIslandId|
                node_in_grid(self, v) && None::<ClusterIslandId> != Some(v) && (#[trigger] dist@[node_index(self, v)]) is Some implies done[node_index(self, v)]
                    || exists|j: int| 0 <= j < heap@.len() && entry_node(heap@[j]) == v && Some(#[trigger] heap@[j].0) == dist@[node_index(self, v)] by {
                lemma_node_index(self, v);
                if node_index(self, v) == si {
                    lemma_node_index_injective(self, v, s);
                    assert(heap@[0].0 == 0);
                }
            }
            assert forall|v: ClusterIslandId|
                node_in_grid(self, v) && (#[trigger] next@[node_index(self, v)]) is Some implies v != s && first_portal_ok(
                    self,
                    s,
                    next@[node_index(self, v)]->0,
                    v,
                ) by {
                lemma_node_index(self, v);
            }
            assert forall|l: int| 0 <= l < cap implies (#[trigger] dist@[l] matches Some(dd) ==> 0 <= dd <= (reach_count(dist@) - 1) * ISLAND_EDGE_BOUND) by {
                if l != si {
                    assert(dist@[l] is None);
                }
            }
            assert(reach_count(dist@) == 1);
            assert forall|k: int| 0 <= k < heap@.len() implies {
                let e = #[trigger] heap@[k];
                let u = entry_node(e);
                &&& node_in_grid(self, u)
                &&& (dist@[node_index(self, u)] matches Some(d) && d <= e.0)
                &&& e.0 <= (reach_count(dist@) - 1) * ISLAND_EDGE_BOUND
                &&& (e.4 matches Some(p) ==> u != s && first_portal_ok(self, s, p, u))
                &&& (e.4 is None ==> u == s)
            } by {
                assert(k == 0);
            }
            assert forall|v: ClusterIslandId|
                node_in_grid(self, v) && #[trigger] done[node_index(self, v)] implies {
                    &&& dist@[node_index(self, v)] is Some
                    &&& (v != s ==> next@[node_index(self, v)] is Some)
                    &&& forall|d: int, k: int|
                        (#[trigger] hop_target(self, v, d, k)) is Some ==> dist@[node_index(self, hop_target(self, v, d, k)->0)] is Some
                } by {
                lemma_node_index(self, v);
            }
            assert(search_core(self, s, dist@, next@, heap@, done));
            assert(island_wwalk(self, seq![s], Seq::<int>::empty(), Seq::<int>::empty()));
            assert(iwalk_cost(self, seq![s], Seq::<int>::empty(), Seq::<int>::empty()) == 0);
            assert(iwalk_of_cost(self, s, s, 0, None));
            assert forall|k: int| 0 <= k < heap@.len() implies iwalk_of_cost(self, s, entry_node(#[trigger] heap@[k]), heap@[k].0 as int, heap@[k].4) by {
                assert(k == 0);
            }
            assert forall|v: ClusterIslandId|
                node_in_grid(self, v) && #[trigger] done[node_index(self, v)] implies no_cheaper_iwalk(self, s, v, dist@[node_index(self, v)]->0 as int)
                    && (v != s ==> iwalk_of_cost(self, s, v, dist@[node_index(self, v)]->0 as int, next@[node_index(self, v)])) by {
                lemma_node_index(self, v);
            }
            assert forall|v: ClusterIslandId, d: int, k: int|
                node_in_grid(self, v) && done[node_index(self, v)] && (#[trigger] hop_target(self, v, d, k)) is Some implies dist@[node_index(
                    self,
                    hop_target(self, v, d, k)->0,
                )]->0 <= dist@[node_index(self, v)]->0 + hop_cost(self, v, d, k) by {
                lemma_node_index(self, v);
            }
            assert(search_costs(self, s, dist@, next@, heap@, done));
            assert forall|v: ClusterIslandId| node_in_grid(self, v) && (#[trigger] next@[node_index(self, v)]) is Some implies done[node_index(self, v)] by {
                lemma_node_index(self, v);
            }
        }
        while heap.len() > 0
            invariant
                routing_ready(self),
                node_in_grid(self, s),
                cap == self.total_island_capacity,
                cols == self.cluster_cols,
                big == unreached_weight(self),
                search_core(self, s, dist@, next@, heap@, done),
                all_pending(self, dist@, heap@, done, None),
                search_costs(self, s, dist@, next@, heap@, done),
                forall|v: ClusterIslandId| node_in_grid(self, v) && (#[trigger] next@[node_index(self, v)]) is Some ==> done[node_index(self, v)],
            decreases search_potential(dist@, big), heap@.len(),
        {
            proof {
                assert forall|l: int| 0 <= l < dist@.len() implies (#[trigger] dist@[l] matches Some(v) ==> v >= 0) by {}
                lemma_potential_nonneg(dist@, big);
            }
            let ghost heap0 = heap@;
            let ghost dist0 = dist@;
            let m = entry_min(&heap);
            let e = entry_take(&mut heap, m);
            let (cost, x, y, isl, fp) = e;
            let u = ClusterIslandId { cluster: (x, y), island: IslandId(isl) };
            proof {
                assert(heap0[m as int] == e);
                assert(entry_node(e) == u);
                lemma_node_index(self, u);
                assert(y * cols <= y * cols + x);
                assert((y * cols + x) * MAX_ISLANDS <= node_index(self, u));
                assert forall|k: int| 0 <= k < heap@.len() implies {
                    let e2 = #[trigger] heap@[k];
                    let v = entry_node(e2);
                    &&& node_in_grid(self, v)
                    &&& (dist@[node_index(self, v)] matches Some(d) && d <= e2.0)
                    &&& e2.0 <= (reach_count(dist@) - 1) * ISLAND_EDGE_BOUND
                    &&& (e2.4 matches Some(p) ==> v != s && first_portal_ok(self, s, p, v))
                    &&& (e2.4 is None ==> v == s)
                } by {
                    let j = choose|j: int| 0 <= j < heap0.len() && j != m && #[trigger] heap@[k] == heap0[j];
                    assert(heap0[j] == heap@[k]);
                }
                assert forall|k: int| 0 <= k < heap@.len() implies iwalk_of_cost(self, s, entry_node(#[trigger] heap@[k]), heap@[k].0 as int, heap@[k].4) by {
                    let j = choose|j: int| 0 <= j < heap0.len() && j != m && #[trigger] heap@[k] == heap0[j];
                    assert(heap0[j] == heap@[k]);
                }
                assert(iwalk_of_cost(self, s, u, cost as int, fp));
            }
            let ui = (y * cols + x) * MAX_ISLANDS + isl as usize;
            let best = dist[ui].unwrap();
            if cost > best {
                proof {
                    assert forall|v: ClusterIslandId|
                        node_in_grid(self, v) && None::<ClusterIslandId> != Some(v) && (#[trigger] dist@[node_index(self, v)]) is Some implies done[node_index(self, v)]
                            || exists|j: int| 0 <= j < heap@.len() && entry_node(heap@[j]) == v && Some(#[trigger] heap@[j].0) == dist@[node_index(self, v)] by {
                        if !done[node_index(self, v)] {
                            let k0 = choose|j: int| 0 <= j < heap0.len() && entry_node(heap0[j]) == v && Some(#[trigger] heap0[j].0) == dist@[node_index(self, v)];
                            assert(k0 != m);
                            let k1 = choose|k: int| 0 <= k < heap@.len() && heap@[k] == #[trigger] heap0[k0];
                            assert(entry_node(heap@[k1]) == v);
                        }
                    }
                }
                continue;
            }
            proof {
                assert(cost == best);
                assert forall|v: ClusterIslandId|
                    node_in_grid(self, v) && (#[trigger] dist@[node_index(self, v)]) is Some && !done[node_index(self, v)] implies cost
                        <= dist@[node_index(self, v)]->0 by {
                    let k0 = choose|j: int| 0 <= j < heap0.len() && entry_node(heap0[j]) == v && Some(#[trigger] heap0[j].0) == dist@[node_index(self, v)];
                    assert(!entry_before_spec(heap0[k0], heap0[m as int]));
                }
                assert forall|pw: Seq<ClusterIslandId>, dw: Seq<int>, kw: Seq<int>|
                    #[trigger] island_wwalk(self, pw, dw, kw) && pw[0] == s && pw.last() == u implies iwalk_cost(self, pw, dw, kw) >= cost by {
                    lemma_iwalk_bound(self, s, dist@, done, cost as int, pw, dw, kw);
                }
                assert(no_cheaper_iwalk(self, s, u, cost as int));
                assert forall|v: ClusterIslandId|
                    node_in_grid(self, v) && Some(u) != Some(v) && (#[trigger] dist@[node_index(self, v)]) is Some implies done[node_index(self, v)]
                        || exists|j: int| 0 <= j < heap@.len() && entry_node(heap@[j]) == v && Some(#[trigger] heap@[j].0) == dist@[node_index(self, v)] by {
                    if !done[node_index(self, v)] {
                        let k0 = choose|j: int| 0 <= j < heap0.len() && entry_node(heap0[j]) == v && Some(#[trigger] heap0[j].0) == dist@[node_index(self, v)];
                        assert(k0 != m);
                        let k1 = choose|k: int| 0 <= k < heap@.len() && heap@[k] == #[trigger] heap0[k0];
                        assert(entry_node(heap@[k1]) == v);
                    }
                }
            }
            let ghost next_before = next@;
            match fp {
                Some(p) => {
                    if next[ui].is_none() {
                        let ghost next0 = next@;
                        next.set(ui, Some(p));
                        proof {
                            assert forall|v: ClusterIslandId|
                                node_in_grid(self, v) && #[trigger] done[node_index(self, v)] implies no_cheaper_iwalk(self, s, v, dist@[node_index(self, v)]->0 as int)
                                    && (v != s ==> iwalk_of_cost(self, s, v, dist@[node_index(self, v)]->0 as int, next@[node_index(self, v)])) by {
                                lemma_node_index(self, v);
                                if node_index(self, v) == ui {
                                    lemma_node_index_injective(self, v, u);
                                    assert(next0[node_index(self, u)] is None);
                                } else {
                                    assert(next@[node_index(self, v)] == next0[node_index(self, v)]);
                                }
                            }
                            assert forall|v: ClusterIslandId|
                                node_in_grid(self, v) && (#[trigger] next@[node_index(self, v)]) is Some implies v != s && first_portal_ok(
                                    self,
                                    s,
                                    next@[node_index(self, v)]->0,
                                    v,
                                ) by {
                                lemma_node_index(self, v);
                                if node_index(self, v) == ui {
                                    lemma_node_index_injective(self, v, u);
                                } else {
                                    assert(next@[node_index(self, v)] == next0[node_index(self, v)]);
                                }
                            }
                            assert(next@[node_index(self, s)] is None) by {
                                if node_index(self, s) == ui {
                                    lemma_node_index_injective(self, s, u);
                                }
                            }
                            assert forall|v: ClusterIslandId|
                                node_in_grid(self, v) && #[trigger] done[node_index(self, v)] && v != s implies next@[node_index(self, v)] is Some by {
                                lemma_node_index(self, v);
                                assert(next0[node_index(self, v)] is Some ==> next@[node_index(self, v)] is Some);
                            }
                        }
                    }
                },
                None => {},
            }
            self.relax_from(s, u, cost, fp, &mut dist, &mut heap, Ghost(next@), Ghost(done));
            proof {
                let old_done = done;
                done = done.update(ui as int, true);
                assert forall|v: ClusterIslandId|
                    node_in_grid(self, v) && #[trigger] done[node_index(self, v)] implies {
                        &&& dist@[node_index(self, v)] is Some
                        &&& (v != s ==> next@[node_index(self, v)] is Some)
                        &&& forall|d: int, k: int|
                            (#[trigger] hop_target(self, v, d, k)) is Some ==> dist@[node_index(self, hop_target(self, v, d, k)->0)] is Some
                    } by {
                    lemma_node_index(self, v);
                    if node_index(self, v) == ui {
                        lemma_node_index_injective(self, v, u);
                    } else {
                        assert(old_done[node_index(self, v)]);
                    }
                }
                assert forall|v: ClusterIslandId|
                    node_in_grid(self, v) && None::<ClusterIslandId> != Some(v) && (#[trigger] dist@[node_index(self, v)]) is Some implies done[node_index(self, v)]
                        || exists|j: int| 0 <= j < heap@.len() && entry_node(heap@[j]) == v && Some(#[trigger] heap@[j].0) == dist@[node_index(self, v)] by {
                    lemma_node_index(self, v);
                    if v != u {
                        if node_index(self, v) == ui {
                            lemma_node_index_injective(self, v, u);
                        }
                        assert(old_done[node_index(self, v)] ==> done[node_index(self, v)]);
                    }
                }
                assert(search_core(self, s, dist@, next@, heap@, done));
                assert forall|v: ClusterIslandId|
                    node_in_grid(self, v) && #[trigger] done[node_index(self, v)] implies no_cheaper_iwalk(self, s, v, dist@[node_index(self, v)]->0 as int)
                        && (v != s ==> iwalk_of_cost(self, s, v, dist@[node_index(self, v)]->0 as int, next@[node_index(self, v)])) by {
                    lemma_node_index(self, v);
                    if node_index(self, v) == ui {
                        lemma_node_index_injective(self, v, u);
                        if !old_done[ui as int] && v != s {
                            assert(next_before[ui as int] is None);
                            assert(fp is Some);
                            assert(next@[ui as int] == fp);
                        }
                    } else {
                        assert(old_done[node_index(self, v)]);
                    }
                }
                assert forall|v: ClusterIslandId, d: int, k: int|
                    node_in_grid(self, v) && done[node_index(self, v)] && (#[trigger] hop_target(self, v, d, k)) is Some implies dist@[node_index(
                        self,
                        hop_target(self, v, d, k)->0,
                    )]->0 <= dist@[node_index(self, v)]->0 + hop_cost(self, v, d, k) by {
                    lemma_node_index(self, v);
                    if node_index(self, v) == ui {
                        lemma_node_index_injective(self, v, u);
                    } else {
                        assert(old_done[node_index(self, v)]);
                    }
                }
                assert(search_costs(self, s, dist@, next@, heap@, done));
                assert forall|v: ClusterIslandId| node_in_grid(self, v) && (#[trigger] next@[node_index(self, v)]) is Some implies done[node_index(self, v)] by {
                    lemma_node_index(self, v);
                    if node_index(self, v) != ui {
                        assert(next@[node_index(self, v)] == next_before[node_index(self, v)]);
                    }
                }
                assert forall|l: int| 0 <= l < dist@.len() implies (#[trigger] dist@[l] matches Some(v) ==> v >= 0) by {}
                lemma_potential_nonneg(dist@, big);
            }
        }
        proof {
            assert forall|v: ClusterIslandId|
                node_in_grid(self, v) implies {
                    let e = #[trigger] next@[node_index(self, v)];
                    if v == s {
                        e is None
                    } else {
                        &&& (e is Some <==> island_reachable(self, s, v))
                        &&& (e matches Some(p) ==> first_portal_ok(self, s, p, v))
                        &&& (e matches Some(p) ==> least_cost_portal(self, s, v, p))
                    }
                } by {
                lemma_node_index(self, v);
                if v == s {
                } else {
                    let e = next@[node_index(self, v)];
                    if e is Some {
                        let p = e->0;
                        assert(first_portal_ok(self, s, p, v));
                        assert(done[node_index(self, v)]);
                        let c = dist@[node_index(self, v)]->0 as int;
                        assert(iwalk_of_cost(self, s, v, c, Some(p)));
                        assert(no_cheaper_iwalk(self, s, v, c));
                        let (d, k) = choose|d: int, k: int|
                            #![trigger hop_target(self, s, d, k)]
                            portal_of(self, s, d) == Some(p) && hop_target(self, s, d, k) is Some && island_reachable(
                                self,
                                hop_target(self, s, d, k)->0,
                                v,
                            );
                        assert(island_step(self, s, hop_target(self, s, d, k)->0));
                        lemma_reachable_prepend(self, s, hop_target(self, s, d, k)->0, v);
                    }
                    if island_reachable(self, s, v) {
                        let path = choose|path: Seq<ClusterIslandId>| #[trigger] island_walk(self, path) && path[0] == s && path.last() == v;
                        assert forall|w: ClusterIslandId|
                            node_in_grid(self, w) && (#[trigger] dist@[node_index(self, w)]) is Some implies done[node_index(self, w)] by {
                            if !done[node_index(self, w)] {
                                let j = choose|j: int| 0 <= j < heap@.len() && entry_node(heap@[j]) == w && Some(#[trigger] heap@[j].0) == dist@[node_index(self, w)];
                            }
                        }
                        lemma_search_closed(self, s, dist@, done, path);
                    }
                }
            }
        }
        next
    }
}

/// `g1` and `g2` have the same routing graph: the same clusters, portals,
/// connections and portal-to-island map.
pub open spec fn same_routing_graph(g1: &HierarchicalGraph, g2: &HierarchicalGraph) -> bool {
    &&& g1.cluster_cols == g2.cluster_cols
    &&& g1.cluster_rows == g2.cluster_rows
    &&& g1.cluster_storage@ == g2.cluster_storage@
    &&& g1.portals@ == g2.portals@
    &&& g1.portal_connections@ == g2.portal_connections@
    &&& g1.portal_island_map@ == g2.portal_island_map@
}

proof fn lemma_iwalk_same(g1: &HierarchicalGraph, g2: &HierarchicalGraph, p: Seq<ClusterIslandId>, ds: Seq<int>, ks: Seq<int>)
    requires
        same_routing_graph(g1, g2),
        island_wwalk(g1, p, ds, ks),
    ensures
        island_wwalk(g2, p, ds, ks),
        iwalk_cost(g1, p, ds, ks) == iwalk_cost(g2, p, ds, ks),
    decreases ds.len(),
{
    assert forall|i: int| 0 <= i < ds.len() implies #[trigger] hop_target(g2, p[i], ds[i], ks[i]) == Some(p[i + 1]) by {
        assert(hop_target(g1, p[i], ds[i], ks[i]) == Some(p[i + 1]));
    }
    if ds.len() > 0 {
        let q = p.drop_last();
        let qd = ds.drop_last();
        let qk = ks.drop_last();
        assert forall|i: int| 0 <= i < qd.len() implies #[trigger] hop_target(g1, q[i], qd[i], qk[i]) == Some(q[i + 1]) by {
            assert(hop_target(g1, p[i], ds[i], ks[i]) == Some(p[i + 1]));
        }
        lemma_iwalk_same(g1, g2, q, qd, qk);
        let n = ds.len() - 1;
        assert(portal_of(g1, p[n], ds[n]) == portal_of(g2, p[n], ds[n]));
    }
}

/// Least-cost first portals depend on the routing graph alone.
proof fn lemma_least_portal_transfer(g1: &HierarchicalGraph, g2: &HierarchicalGraph, s: ClusterIslandId, v: ClusterIslandId, pt: usize)
    requires
        same_routing_graph(g1, g2),
        least_cost_portal(g1, s, v, pt),
    ensures
        least_cost_portal(g2, s, v, pt),
{
    assert(same_routing_graph(g2, g1));
    let c = choose|c: int| #[trigger] iwalk_of_cost(g1, s, v, c, Some(pt)) && no_cheaper_iwalk(g1, s, v, c);
    let (p, ds, ks) = choose|p: Seq<ClusterIslandId>, ds: Seq<int>, ks: Seq<int>|
        #[trigger] island_wwalk(g1, p, ds, ks) && p[0] == s && p.last() == v && iwalk_cost(g1, p, ds, ks) == c && (s != v
            ==> Some(pt) == portal_of(g1, s, ds[0]));
    lemma_iwalk_same(g1, g2, p, ds, ks);
    if s != v {
        assert(portal_of(g1, s, ds[0]) == portal_of(g2, s, ds[0]));
    }
    assert(iwalk_of_cost(g2, s, v, c, Some(pt)));
    assert forall|q: Seq<ClusterIslandId>, qd: Seq<int>, qk: Seq<int>|
        #[trigger] island_wwalk(g2, q, qd, qk) && q[0] == s && q.last() == v implies iwalk_cost(g2, q, qd, qk) >= c by {
        lemma_iwalk_same(g2, g1, q, qd, qk);
    }
}

proof fn lemma_same_routing_graph(g1: &HierarchicalGraph, g2: &HierarchicalGraph)
    requires
        same_routing_graph(g1, g2),
    ensures
        forall|u: ClusterIslandId, d: int, k: int| #[trigger] hop_target(g1, u, d, k) == hop_target(g2, u, d, k),
        forall|u: ClusterIslandId, d: int| #[trigger] portal_of(g1, u, d) == portal_of(g2, u, d),
        forall|u: ClusterIslandId, v: ClusterIslandId| #[trigger] island_reachable(g1, u, v) == island_reachable(g2, u, v),
        forall|s: ClusterIslandId, p: usize, v: ClusterIslandId| #[trigger] first_portal_ok(g1, s, p, v) == first_portal_ok(g2, s, p, v),
        forall|s: ClusterIslandId, v: ClusterIslandId, p: usize| #[trigger] least_cost_portal(g1, s, v, p) == least_cost_portal(g2, s, v, p),
{
    assert(same_routing_graph(g2, g1));
    assert forall|s: ClusterIslandId, v: ClusterIslandId, p: usize| #[trigger] least_cost_portal(g1, s, v, p) == least_cost_portal(g2, s, v, p) by {
        if least_cost_portal(g1, s, v, p) {
            lemma_least_portal_transfer(g1, g2, s, v, p);
        }
        if least_cost_portal(g2, s, v, p) {
            lemma_least_portal_transfer(g2, g1, s, v, p);
        }
    }
    assert forall|u: ClusterIslandId, d: int, k: int| #[trigger] hop_target(g1, u, d, k) == hop_target(g2, u, d, k) by {}
    assert forall|u: ClusterIslandId, w: ClusterIslandId| #[trigger] island_step(g1, u, w) == island_step(g2, u, w) by {
        if island_step(g1, u, w) {
            let (d, k) = choose|d: int, k: int| #[trigger] hop_target(g1, u, d, k) == Some(w);
            assert(hop_target(g2, u, d, k) == Some(w));
        }
        if island_step(g2, u, w) {
            let (d, k) = choose|d: int, k: int| #[trigger] hop_target(g2, u, d, k) == Some(w);
            assert(hop_target(g1, u, d, k) == Some(w));
        }
    }
    assert forall|p: Seq<ClusterIslandId>| #[trigger] island_walk(g1, p) == island_walk(g2, p) by {
        if island_walk(g1, p) {
            assert forall|i: int| 0 <= i < p.len() - 1 implies #[trigger] island_step(g2, p[i], p[i + 1]) by {
                assert(island_step(g1, p[i], p[i + 1]));
            }
        }
        if island_walk(g2, p) {
            assert forall|i: int| 0 <= i < p.len() - 1 implies #[trigger] island_step(g1, p[i], p[i + 1]) by {
                assert(island_step(g2, p[i], p[i + 1]));
            }
        }
    }
    assert forall|u: ClusterIslandId, v: ClusterIslandId| #[trigger] island_reachable(g1, u, v) == island_reachable(g2, u, v) by {
        if island_reachable(g1, u, v) {
            let p = choose|p: Seq<ClusterIslandId>| #[trigger] island_walk(g1, p) && p[0] == u && p.last() == v;
            assert(island_walk(g2, p));
        }
        if island_reachable(g2, u, v) {
            let p = choose|p: Seq<ClusterIslandId>| #[trigger] island_walk(g2, p) && p[0] == u && p.last() == v;
            assert(island_walk(g1, p));
        }
    }
    assert forall|s: ClusterIslandId, p: usize, v: ClusterIslandId| #[trigger] first_portal_ok(g1, s, p, v) == first_portal_ok(g2, s, p, v) by {
        if first_portal_ok(g1, s, p, v) {
            let (d, k) = choose|d: int, k: int|
                #![trigger hop_target(g1, s, d, k)]
                portal_of(g1, s, d) == Some(p) && hop_target(g1, s, d, k) is Some && island_reachable(g1, hop_target(g1, s, d, k)->0, v);
            assert(hop_target(g2, s, d, k) == hop_target(g1, s, d, k));
        }
        if first_portal_ok(g2, s, p, v) {
            let (d, k) = choose|d: int, k: int|
                #![trigger hop_target(g2, s, d, k)]
                portal_of(g2, s, d) == Some(p) && hop_target(g2, s, d, k) is Some && island_reachable(g2, hop_target(g2, s, d, k)->0, v);
            assert(hop_target(g2, s, d, k) == hop_target(g1, s, d, k));
        }
    }
}

/// An island with a slot in a stored cluster: a source of the routing table.
pub open spec fn island_source(g: &HierarchicalGraph, s: ClusterIslandId) -> bool {
    let c = g.cluster_at(s.cluster.0 as int, s.cluster.1 as int);
    c is Some && (s.island.0 as int) < c->0.island_count
}

/// The routing entry `e` from `s` to `v` in a graph whose routing graph is
/// that of `base`: for a source other than `v`, a first portal exactly when
/// `v` can be reached, and then the first portal of a least-cost walk
/// (summed connection costs, see `least_cost_portal`); `None` otherwise.
pub open spec fn route_entry_ok(base: &HierarchicalGraph, s: ClusterIslandId, v: ClusterIslandId, e: Option<usize>) -> bool {
    if island_source(base, s) && s != v {
        &&& (e is Some <==> island_reachable(base, s, v))
        &&& (e matches Some(p) ==> first_portal_ok(base, s, p, v))
        &&& (e matches Some(p) ==> least_cost_portal(base, s, v, p))
    } else {
        e is None
    }
}

/// Every entry of the routing table of `g` between nodes of the grid is as
/// `route_entry_ok` says.
pub open spec fn routes_ok(g: &HierarchicalGraph) -> bool {
    forall|s: ClusterIslandId, v: ClusterIslandId|
        node_in_grid(g, s) && node_in_grid(g, v) ==> route_entry_ok(g, s, v, #[trigger] g.island_route_spec(s, v))
}

proof fn lemma_route_index(g: &HierarchicalGraph, s: ClusterIslandId, v: ClusterIslandId)
    requires
        g.arena_wf(),
        node_in_grid(g, s),
        node_in_grid(g, v),
    ensures
        g.route_index(s, v) == node_index(g, s) * g.total_island_capacity + node_index(g, v),
        0 <= g.route_index(s, v) < g.island_routing_storage@.len(),
        g.route_index_fits(s, v),
{
    lemma_node_index(g, s);
    lemma_node_index(g, v);
    let cap = g.total_island_capacity as int;
    let a = node_index(g, s);
    let b = node_index(g, v);
    assert(a * cap + b < cap * cap) by (nonlinear_arith)
        requires
            0 <= a < cap,
            0 <= b < cap,
    ;
    assert(0 <= a * cap) by (nonlinear_arith)
        requires
            0 <= a,
            0 <= cap,
    ;
}

proof fn lemma_row_disjoint(a: int, b: int, cap: int, x: int)
    requires
        0 <= a < cap,
        0 <= b < cap,
        0 <= x < cap,
        a != b,
    ensures
        !(b * cap <= a * cap + x < b * cap + cap),
{
    if a < b {
        assert(a * cap + cap <= b * cap) by (nonlinear_arith)
            requires
                a + 1 <= b,
                cap >= 0,
        ;
    } else {
        assert(a * cap >= b * cap + cap) by (nonlinear_arith)
            requires
                a > b,
                cap >= 0,
        ;
    }
}

impl HierarchicalGraph {
    /// Runs the routing search from `source` and records, for every island it
    /// reaches, the first portal of the route toward it; other entries are
    /// left as they were.
    fn build_routing_for_island(&mut self, source: ClusterIslandId)
        requires
            routing_ready(old(self)),
            node_in_grid(old(self), source),
        ensures
            same_routing_graph(final(self), old(self)),
            final(self).next_portal_id == old(self).next_portal_id,
            final(self).initialized == old(self).initialized,
            final(self).total_island_capacity == old(self).total_island_capacity,
            final(self).island_routing_storage@.len() == old(self).island_routing_storage@.len(),
            forall|s: ClusterIslandId, v: ClusterIslandId|
                node_in_grid(old(self), s) && node_in_grid(old(self), v) ==> {
                    let e = #[trigger] final(self).island_route_spec(s, v);
                    if s == source && v != source && island_reachable(old(self), source, v) {
                        e is Some && first_portal_ok(old(self), source, e->0, v) && least_cost_portal(old(self), source, v, e->0)
                    } else {
                        e == old(self).island_route_spec(s, v)
                    }
                },
    {
        let next = self.routes_from(source);
        let ghost g0 = *self;
        let cap = self.total_island_capacity;
        let cols = self.cluster_cols;
        let (sx, sy) = source.cluster;
        proof {
            lemma_node_index(self, source);
            assert(sy * cols <= sy * cols + sx);
            assert((sy * cols + sx) * MAX_ISLANDS <= node_index(self, source));
            assert(node_index(self, source) * cap + cap <= cap * cap) by (nonlinear_arith)
                requires
                    0 <= node_index(self, source) < cap,
            ;
        }
        let si = (sy * cols + sx) * MAX_ISLANDS + source.island.0 as usize;
        let base = si * cap;
        let mut l: usize = 0;
        while l < cap
            invariant
                l <= cap,
                cap == g0.total_island_capacity,
                base + cap <= cap * cap,
                cap * cap <= usize::MAX,
                cap * cap == g0.island_routing_storage@.len(),
                next@.len() == cap,
                self.island_routing_storage@.len() == g0.island_routing_storage@.len(),
                forall|t: int|
                    0 <= t < g0.island_routing_storage@.len() ==> #[trigger] self.island_routing_storage@[t] == if base <= t
                        < base + l && next@[t - base] is Some {
                        next@[t - base]->0
                    } else {
                        g0.island_routing_storage@[t]
                    },
                same_routing_graph(self, &g0),
                self.next_portal_id == g0.next_portal_id,
                self.initialized == g0.initialized,
                self.total_island_capacity == g0.total_island_capacity,
            decreases cap - l,
        {
            match next[l] {
                Some(p) => {
                    self.island_routing_storage.set(base + l, p);
                },
                None => {},
            }
            l = l + 1;
        }
        proof {
            assert forall|s: ClusterIslandId, v: ClusterIslandId|
                node_in_grid(&g0, s) && node_in_grid(&g0, v) implies {
                    let e = #[trigger] self.island_route_spec(s, v);
                    if s == source && v != source && island_reachable(&g0, source, v) {
                        e is Some && first_portal_ok(&g0, source, e->0, v) && least_cost_portal(&g0, source, v, e->0)
                    } else {
                        e == g0.island_route_spec(s, v)
                    }
                } by {
                lemma_route_index(&g0, s, v);
                let t = g0.route_index(s, v);
                assert(self.route_index(s, v) == t);
                let a = node_index(&g0, s);
                let b = node_index(&g0, v);
                lemma_node_index(&g0, s);
                lemma_node_index(&g0, v);
                if s == source {
                    assert(t - base == b);
                    let e = next@[node_index(self, v)];
                    assert(e == next@[b]);
                    if e is Some {
                        let p = e->0;
                        if v != source {
                            let (d, k) = choose|d: int, k: int|
                                #![trigger hop_target(&g0, source, d, k)]
                                portal_of(&g0, source, d) == Some(p) && hop_target(&g0, source, d, k) is Some && island_reachable(
                                    &g0,
                                    hop_target(&g0, source, d, k)->0,
                                    v,
                                );
                            assert(p < g0.portals@.len());
                        }
                    }
                } else {
                    assert(a != node_index(&g0, source)) by {
                        if a == node_index(&g0, source) {
                            lemma_node_index_injective(&g0, s, source);
                        }
                    }
                    lemma_row_disjoint(a, node_index(&g0, source), cap as int, b);
                }
            }
        }
    }
}

/// Number of islands of the cluster at `(cx, cy)`; zero where none is stored.
pub open spec fn cluster_island_count(g: &HierarchicalGraph, cx: int, cy: int) -> int {
    match g.cluster_at(cx, cy) {
        Some(c) => c.island_count as int,
        None => 0,
    }
}

/// Source `s` comes before position `(cy, cx, i)` of the table build:
/// clusters row by row, islands in order.
pub open spec fn source_before(s: ClusterIslandId, cy: int, cx: int, i: int) -> bool {
    ||| s.cluster.1 < cy
    ||| (s.cluster.1 == cy && s.cluster.0 < cx)
    ||| (s.cluster.1 == cy && s.cluster.0 == cx && s.island.0 < i)
}

/// Entries from sources before `(cy, cx, i)` are as `route_entry_ok` says
/// over `base`; all others are empty.
pub open spec fn table_so_far(g: &HierarchicalGraph, base: &HierarchicalGraph, cy: int, cx: int, i: int) -> bool {
    forall|s: ClusterIslandId, v: ClusterIslandId|
        node_in_grid(base, s) && node_in_grid(base, v) ==> {
            let e = #[trigger] g.island_route_spec(s, v);
            if source_before(s, cy, cx, i) {
                route_entry_ok(base, s, v, e)
            } else {
                e is None
            }
        }
}

impl HierarchicalGraph {
    /// Builds the island routing table (see `routes_ok`): every entry is
    /// cleared, then a routing search runs from every island of every stored
    /// cluster, clusters row by row.
    pub fn build_island_routing_table(&mut self)
        requires
            routing_ready(old(self)),
        ensures
            same_routing_graph(final(self), old(self)),
            final(self).next_portal_id == old(self).next_portal_id,
            final(self).initialized == old(self).initialized,
            final(self).total_island_capacity == old(self).total_island_capacity,
            routing_ready(final(self)),
            routes_ok(final(self)),
    {
        let n = self.island_routing_storage.len();
        let mut t: usize = 0;
        while t < n
            invariant
                t <= n,
                n == self.island_routing_storage@.len(),
                routing_ready(self),
                same_routing_graph(self, old(self)),
                self.next_portal_id == old(self).next_portal_id,
                self.initialized == old(self).initialized,
                self.total_island_capacity == old(self).total_island_capacity,
                forall|j: int| 0 <= j < t ==> #[trigger] self.island_routing_storage@[j] == NO_ROUTE,
            decreases n - t,
        {
            self.island_routing_storage.set(t, NO_ROUTE);
            t = t + 1;
        }
        let ghost g0 = *self;
        let rows = self.cluster_rows;
        let cols = self.cluster_cols;
        proof {
            assert forall|s: ClusterIslandId, v: ClusterIslandId|
                node_in_grid(&g0, s) && node_in_grid(&g0, v) implies {
                    let e = #[trigger] self.island_route_spec(s, v);
                    if source_before(s, 0, 0, 0) {
                        route_entry_ok(&g0, s, v, e)
                    } else {
                        e is None
                    }
                } by {
                lemma_route_index(&g0, s, v);
            }
        }
        let mut cy: usize = 0;
        while cy < rows
            invariant
                cy <= rows,
                rows == g0.cluster_rows,
                cols == g0.cluster_cols,
                routing_ready(&g0),
                routing_ready(self),
                same_routing_graph(self, &g0),
                same_routing_graph(&g0, old(self)),
                self.next_portal_id == old(self).next_portal_id,
                self.initialized == old(self).initialized,
                self.total_island_capacity == g0.total_island_capacity,
                g0.total_island_capacity == old(self).total_island_capacity,
                table_so_far(self, &g0, cy as int, 0, 0),
            decreases rows - cy,
        {
            let mut cx: usize = 0;
            while cx < cols
                invariant
                    cy < rows,
                    cx <= cols,
                    rows == g0.cluster_rows,
                    cols == g0.cluster_cols,
                    routing_ready(&g0),
                    routing_ready(self),
                    same_routing_graph(self, &g0),
                    same_routing_graph(&g0, old(self)),
                    self.next_portal_id == old(self).next_portal_id,
                    self.initialized == old(self).initialized,
                    self.total_island_capacity == g0.total_island_capacity,
                    g0.total_island_capacity == old(self).total_island_capacity,
                    table_so_far(self, &g0, cy as int, cx as int, 0),
                decreases cols - cx,
            {
                proof {
                    assert(cy * cols + cx < cols * rows) by (nonlinear_arith)
                        requires
                            cx < cols,
                            cy < rows,
                    ;
                }
                let idx = cy * cols + cx;
                let count = match &self.cluster_storage[idx] {
                    Some(c) => c.island_count,
                    None => 0,
                };
                proof {
                    assert(count <= MAX_ISLANDS) by {
                        if self.cluster_storage@[idx as int] is Some {
                            assert(self.cluster_storage@[idx as int]->0.wf());
                        }
                    }
                    assert(count == cluster_island_count(&g0, cx as int, cy as int));
                }
                let mut i: usize = 0;
                while i < count
                    invariant
                        cy < rows,
                        cx < cols,
                        i <= count,
                        count <= MAX_ISLANDS,
                        count == cluster_island_count(&g0, cx as int, cy as int),
                        rows == g0.cluster_rows,
                        cols == g0.cluster_cols,
                        routing_ready(&g0),
                        routing_ready(self),
                        same_routing_graph(self, &g0),
                        same_routing_graph(&g0, old(self)),
                        self.next_portal_id == old(self).next_portal_id,
                        self.initialized == old(self).initialized,
                        self.total_island_capacity == g0.total_island_capacity,
                        g0.total_island_capacity == old(self).total_island_capacity,
                        table_so_far(self, &g0, cy as int, cx as int, i as int),
                    decreases count - i,
                {
                    let src = ClusterIslandId::new((cx, cy), IslandId(i as u8));
                    let ghost gb = *self;
                    self.build_routing_for_island(src);
                    proof {
                        lemma_same_routing_graph(&gb, &g0);
                        assert(island_source(&g0, src));
                        assert forall|s: ClusterIslandId, v: ClusterIslandId|
                            node_in_grid(&g0, s) && node_in_grid(&g0, v) implies {
                                let e = #[trigger] self.island_route_spec(s, v);
                                if source_before(s, cy as int, cx as int, i + 1) {
                                    route_entry_ok(&g0, s, v, e)
                                } else {
                                    e is None
                                }
                            } by {
                            let eb = gb.island_route_spec(s, v);
                            assert(if source_before(s, cy as int, cx as int, i as int) {
                                route_entry_ok(&g0, s, v, eb)
                            } else {
                                eb is None
                            });
                            if s == src {
                                assert(!source_before(s, cy as int, cx as int, i as int));
                            }
                        }
                    }
                    i = i + 1;
                }
                proof {
                    assert forall|s: ClusterIslandId, v: ClusterIslandId|
                        node_in_grid(&g0, s) && node_in_grid(&g0, v) implies {
                            let e = #[trigger] self.island_route_spec(s, v);
                            if source_before(s, cy as int, cx + 1, 0) {
                                route_entry_ok(&g0, s, v, e)
                            } else {
                                e is None
                            }
                        } by {
                        if s.cluster.1 == cy && s.cluster.0 == cx && s.island.0 >= count {
                            assert(s == ClusterIslandId { cluster: (cx, cy), island: IslandId(s.island.0 as int as u8) });
                            assert(!island_source(&g0, s));
                        }
                    }
                }
                cx = cx + 1;
            }
            proof {
                assert forall|s: ClusterIslandId, v: ClusterIslandId|
                    node_in_grid(&g0, s) && node_in_grid(&g0, v) implies {
                        let e = #[trigger] self.island_route_spec(s, v);
                        if source_before(s, cy + 1, 0, 0) {
                            route_entry_ok(&g0, s, v, e)
                        } else {
                            e is None
                        }
                    } by {
                    assert(source_before(s, cy + 1, 0, 0) == source_before(s, cy as int, cols as int, 0));
                }
            }
            cy = cy + 1;
        }
        proof {
            lemma_same_routing_graph(self, &g0);
            assert forall|s: ClusterIslandId, v: ClusterIslandId|
                node_in_grid(self, s) && node_in_grid(self, v) implies route_entry_ok(self, s, v, #[trigger] self.island_route_spec(s, v)) by {
                assert(source_before(s, rows as int, 0, 0));
                assert(island_source(self, s) == island_source(&g0, s));
            }
        }
    }
}

/// The routing table stays correct in a graph with the same routing graph
/// and the same table.
pub proof fn lemma_routes_ok_kept(g2: &HierarchicalGraph, g1: &HierarchicalGraph)
    requires
        routes_ok(g1),
        same_routing_graph(g2, g1),
        g2.island_routing_storage@ == g1.island_routing_storage@,
        g2.total_island_capacity == g1.total_island_capacity,
    ensures
        routes_ok(g2),
{
    lemma_same_routing_graph(g2, g1);
    assert forall|s: ClusterIslandId, v: ClusterIslandId|
        node_in_grid(g2, s) && node_in_grid(g2, v) implies route_entry_ok(g2, s, v, #[trigger] g2.island_route_spec(s, v)) by {
        assert(g2.island_route_spec(s, v) == g1.island_route_spec(s, v));
        assert(route_entry_ok(g1, s, v, g1.island_route_spec(s, v)));
        assert(island_source(g2, s) == island_source(g1, s));
    }
}

/// The routing-table position of a pair of grid nodes is in range and
/// computable.
pub proof fn lemma_route_index_pub(g: &HierarchicalGraph, s: ClusterIslandId, v: ClusterIslandId)
    requires
        g.arena_wf(),
        node_in_grid(g, s),
        node_in_grid(g, v),
    ensures
        g.route_index(s, v) == node_index(g, s) * g.total_island_capacity + node_index(g, v),
        0 <= g.route_index(s, v) < g.island_routing_storage@.len(),
        g.route_index_fits(s, v),
        0 <= node_index(g, s) < g.total_island_capacity,
        0 <= node_index(g, v) < g.total_island_capacity,
{
    lemma_route_index(g, s, v);
    lemma_node_index(g, s);
    lemma_node_index(g, v);
}

} // verus!
