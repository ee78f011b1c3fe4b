//! Copying the graph's island routes and local region routes into the
//! navigation routing arenas.
use vstd::prelude::*;
use vstd::arithmetic::div_mod::{lemma_fundamental_div_mod, lemma_fundamental_div_mod_converse};
use crate::pathfinding::types::{ClusterIslandId, IslandId, MAX_ISLANDS, MAX_REGIONS};
use crate::pathfinding::graph::HierarchicalGraph;
use crate::pathfinding::island_routing::{node_in_grid, node_index};
use crate::pathfinding::navigation_routing::{NavigationRouting, IslandArenaIdx, ClusterArenaIdx, LocalRegionId, NO_REGION};

verus! {

/// The node with linear index `l` in a graph `cols` clusters wide.
pub open spec fn node_at(cols: int, l: int) -> ClusterIslandId {
    let c = l / (MAX_ISLANDS as int);
    ClusterIslandId { cluster: ((c % cols) as usize, (c / cols) as usize), island: IslandId((l % (MAX_ISLANDS as int)) as u8) }
}

proof fn lemma_node_at(g: &HierarchicalGraph, l: int)
    requires
        g.arena_wf(),
        0 <= l < g.total_island_capacity,
    ensures
        node_in_grid(g, node_at(g.cluster_cols as int, l)),
        node_index(g, node_at(g.cluster_cols as int, l)) == l,
{
    let cols = g.cluster_cols as int;
    let rows = g.cluster_rows as int;
    let c = l / (MAX_ISLANDS as int);
    let i = l % (MAX_ISLANDS as int);
    lemma_fundamental_div_mod(l, MAX_ISLANDS as int);
    assert(cols > 0) by {
        if cols == 0 {
            assert(cols * rows * MAX_ISLANDS == 0) by (nonlinear_arith)
                requires
                    cols == 0,
            ;
        }
    }
    assert(0 <= c < cols * rows) by (nonlinear_arith)
        requires
            l == MAX_ISLANDS * c + i,
            0 <= i < MAX_ISLANDS,
            0 <= l < cols * rows * MAX_ISLANDS,
    ;
    lemma_fundamental_div_mod(c, cols);
    let x = c % cols;
    let y = c / cols;
    assert(0 <= y < rows) by (nonlinear_arith)
        requires
            c == cols * y + x,
            0 <= x < cols,
            0 <= c < cols * rows,
    ;
    assert(y * cols + x == c) by (nonlinear_arith)
        requires
            c == cols * y + x,
    ;
}

proof fn lemma_node_at_index(g: &HierarchicalGraph, u: ClusterIslandId)
    requires
        g.arena_wf(),
        node_in_grid(g, u),
    ensures
        node_at(g.cluster_cols as int, node_index(g, u)) == u,
{
    let cols = g.cluster_cols as int;
    let c = u.cluster.1 * cols + u.cluster.0;
    let l = c * MAX_ISLANDS + u.island.0;
    lemma_fundamental_div_mod_converse(l, MAX_ISLANDS as int, c, u.island.0 as int);
    lemma_fundamental_div_mod_converse(c, cols, u.cluster.1 as int, u.cluster.0 as int);
}

/// A routing source or destination: an island slot of a stored cluster that
/// is below its island count and holds an island.
pub open spec fn exported_island(g: &HierarchicalGraph, u: ClusterIslandId) -> bool {
    let c = g.cluster_at(u.cluster.0 as int, u.cluster.1 as int);
    &&& c is Some
    &&& (u.island.0 as int) < c->0.island_count
    &&& c->0.islands@[u.island.0 as int] is Some
}

/// The first portal from `s` to `d` that the graph gives (see
/// `get_next_portal_for_island`).
pub open spec fn graph_next_portal(g: &HierarchicalGraph, s: ClusterIslandId, d: ClusterIslandId) -> Option<usize> {
    if s == d {
        None
    } else {
        g.island_route_spec(s, d)
    }
}

/// The value written for routing-table pair `t` (source `t / capacity`,
/// destination `t % capacity`), if any.
pub open spec fn pair_value(g: &HierarchicalGraph, t: int) -> Option<usize> {
    let cap = g.total_island_capacity as int;
    let s = node_at(g.cluster_cols as int, t / cap);
    let d = node_at(g.cluster_cols as int, t % cap);
    if exported_island(g, s) && exported_island(g, d) {
        graph_next_portal(g, s, d)
    } else {
        None
    }
}

/// Entry `t` of the island table once every pair before `done` was
/// exported from `g` over `before`.
pub open spec fn island_entry_after(g: &HierarchicalGraph, before: Seq<usize>, done: int, t: int) -> usize {
    if t < done && pair_value(g, t) is Some {
        pair_value(g, t)->0
    } else {
        before[t]
    }
}

impl HierarchicalGraph {
    /// Whether node `u` is an exported island (see `exported_island`).
    fn is_exported(&self, u: ClusterIslandId) -> (r: bool)
        requires
            self.wf(),
            node_in_grid(self, u),
        ensures
            r == exported_island(self, u),
    {
        match self.get_cluster(u.cluster.0, u.cluster.1) {
            Some(c) => {
                let i = u.island.0 as usize;
                if i < c.island_count {
                    proof {
                        let s = u.cluster.1 * self.cluster_cols + u.cluster.0;
                        assert(s < self.cluster_cols * self.cluster_rows) by (nonlinear_arith)
                            requires
                                u.cluster.0 < self.cluster_cols,
                                u.cluster.1 < self.cluster_rows,
                                s == u.cluster.1 * self.cluster_cols + u.cluster.0,
                        ;
                        assert(self.cluster_storage@[s] is Some);
                    }
                    match &c.islands[i] {
                        Some(_) => true,
                        None => false,
                    }
                } else {
                    false
                }
            },
            None => false,
        }
    }

    /// The node with linear index `l`.
    fn node_of(&self, l: usize) -> (r: ClusterIslandId)
        requires
            self.arena_wf(),
            l < self.total_island_capacity,
        ensures
            r == node_at(self.cluster_cols as int, l as int),
            node_in_grid(self, r),
            node_index(self, r) == l,
    {
        proof {
            lemma_node_at(self, l as int);
        }
        let c = l / MAX_ISLANDS;
        let cols = self.cluster_cols;
        ClusterIslandId { cluster: (c % cols, c / cols), island: IslandId((l % MAX_ISLANDS) as u8) }
    }

    /// Copies the island routes into `routing`: for every pair of exported
    /// islands (see `exported_island`) between which the graph has a first
    /// portal, that portal; other entries are left as they were.
    fn export_island_routes(&self, routing: &mut NavigationRouting)
        requires
            self.wf(),
            old(routing).island_routing.wf(),
            old(routing).island_routing.capacity() == self.total_island_capacity,
            self.total_island_capacity <= u32::MAX,
        ensures
            final(routing).island_routing.wf(),
            final(routing).island_routing.capacity() == self.total_island_capacity,
            final(routing).region_routing == old(routing).region_routing,
            final(routing).island_routing.entries().len() == old(routing).island_routing.entries().len(),
            forall|t: int|
                0 <= t < old(routing).island_routing.entries().len() ==> #[trigger] final(routing).island_routing.entries()[t]
                    == island_entry_after(self, old(routing).island_routing.entries(), t + 1, t),
    {
        let ghost before = routing.island_routing.entries();
        let cap = self.total_island_capacity;
        let mut sl: usize = 0;
        while sl < cap
            invariant
                self.wf(),
                cap == self.total_island_capacity,
                cap <= u32::MAX,
                routing.island_routing.wf(),
                routing.island_routing.capacity() == cap,
                routing.region_routing == old(routing).region_routing,
                before == old(routing).island_routing.entries(),
                routing.island_routing.entries().len() == before.len(),
                before.len() == cap * cap,
                sl <= cap,
                forall|t: int| 0 <= t < before.len() ==> #[trigger] routing.island_routing.entries()[t] == island_entry_after(self, before, sl * cap, t),
            decreases cap - sl,
        {
            let s = self.node_of(sl);
            let s_ok = self.is_exported(s);
            let mut dl: usize = 0;
            while dl < cap
                invariant
                    self.wf(),
                    cap == self.total_island_capacity,
                    cap <= u32::MAX,
                    routing.island_routing.wf(),
                    routing.island_routing.capacity() == cap,
                    routing.region_routing == old(routing).region_routing,
                    before == old(routing).island_routing.entries(),
                    routing.island_routing.entries().len() == before.len(),
                    before.len() == cap * cap,
                    sl < cap,
                    dl <= cap,
                    s == node_at(self.cluster_cols as int, sl as int),
                    node_in_grid(self, s),
                    node_index(self, s) == sl,
                    s_ok == exported_island(self, s),
                    forall|t: int| 0 <= t < before.len() ==> #[trigger] routing.island_routing.entries()[t] == island_entry_after(self, before, sl * cap + dl, t),
                decreases cap - dl,
            {
                let ghost t0: int = sl * cap + dl;
                proof {
                    assert(sl * cap + dl < cap * cap) by (nonlinear_arith)
                        requires
                            sl < cap,
                            dl < cap,
                    ;
                    lemma_fundamental_div_mod_converse(t0, cap as int, sl as int, dl as int);
                }
                let mut wrote = false;
                if s_ok {
                    let d = self.node_of(dl);
                    if self.is_exported(d) {
                        proof {
                            crate::pathfinding::island_routing::lemma_route_index_pub(self, s, d);
                        }
                        match self.get_next_portal_for_island(s, d) {
                            Some(p) => {
                                let ghost e0 = routing.island_routing.entries();
                                routing.island_routing.set_route(IslandArenaIdx(sl as u32), IslandArenaIdx(dl as u32), p);
                                proof {
                                    assert(pair_value(self, t0) == Some(p));
                                    assert forall|t: int| 0 <= t < before.len() implies #[trigger] routing.island_routing.entries()[t] == island_entry_after(self, before, t0 + 1, t) by {
                                        if t != t0 {
                                            assert(routing.island_routing.entries()[t] == e0[t]);
                                        }
                                    }
                                }
                                wrote = true;
                            },
                            None => {
                                proof {
                                    assert(pair_value(self, t0) is None);
                                }
                            },
                        }
                    } else {
                        proof {
                            assert(pair_value(self, t0) is None);
                        }
                    }
                } else {
                    proof {
                        assert(pair_value(self, t0) is None);
                    }
                }
                proof {
                    if !wrote {
                        assert forall|t: int| 0 <= t < before.len() implies #[trigger] routing.island_routing.entries()[t] == island_entry_after(self, before, t0 + 1, t) by {
                            assert(routing.island_routing.entries()[t] == island_entry_after(self, before, t0, t));
                        }
                    }
                }
                dl = dl + 1;
            }
            proof {
                assert(sl * cap + cap == (sl + 1) * cap) by (nonlinear_arith);
            }
            sl = sl + 1;
        }
        proof {
            assert forall|t: int| 0 <= t < before.len() implies #[trigger] routing.island_routing.entries()[t] == island_entry_after(self, before, t + 1, t) by {
                assert(routing.island_routing.entries()[t] == island_entry_after(self, before, cap * cap, t));
            }
        }
    }
}

/// The (start cluster, end cluster, start region, end region) that entry `t`
/// of a region table over `n` clusters stands for.
pub open spec fn region_slot_parts(n: int, t: int) -> (int, int, int, int) {
    let q = t / ((MAX_REGIONS * MAX_REGIONS) as int);
    let r = t % ((MAX_REGIONS * MAX_REGIONS) as int);
    (q / n, q % n, r / (MAX_REGIONS as int), r % (MAX_REGIONS as int))
}

/// The value written for region-table entry `t`: for a start region and an
/// end region of the same stored cluster, its local routing entry.
pub open spec fn region_value(g: &HierarchicalGraph, t: int) -> Option<u8> {
    let n = (g.cluster_cols * g.cluster_rows) as int;
    let (sc, ec, sr, er) = region_slot_parts(n, t);
    let cl = g.cluster_at(sc % (g.cluster_cols as int), sc / (g.cluster_cols as int));
    if sc == ec && cl is Some && sr < cl->0.region_count && er < cl->0.region_count {
        Some(cl->0.route_spec(sr, er))
    } else {
        None
    }
}

/// Entry `t` once every (cluster, start region, end region) before
/// `(c, sr, er)` was exported from `g` over `before`.
pub open spec fn region_entry_after(g: &HierarchicalGraph, before: Seq<u8>, c: int, sr: int, er: int, t: int) -> u8 {
    let n = (g.cluster_cols * g.cluster_rows) as int;
    let (sc, ec, a, b) = region_slot_parts(n, t);
    if (sc < c || (sc == c && (a < sr || (a == sr && b < er)))) && region_value(g, t) is Some {
        region_value(g, t)->0
    } else {
        before[t]
    }
}

proof fn lemma_region_slot(n: int, c: int, sr: int, er: int)
    requires
        0 <= c < n,
        0 <= sr < MAX_REGIONS,
        0 <= er < MAX_REGIONS,
    ensures
        region_slot_parts(n, c * (n * MAX_REGIONS * MAX_REGIONS) + c * (MAX_REGIONS * MAX_REGIONS) + sr * MAX_REGIONS + er) == (c, c, sr, er),
        0 <= c * (n * MAX_REGIONS * MAX_REGIONS) + c * (MAX_REGIONS * MAX_REGIONS) + sr * MAX_REGIONS + er < n * n * MAX_REGIONS * MAX_REGIONS,
{
    let t = c * (n * MAX_REGIONS * MAX_REGIONS) + c * (MAX_REGIONS * MAX_REGIONS) + sr * MAX_REGIONS + er;
    let q = c * n + c;
    let r = sr * MAX_REGIONS + er;
    assert(t == q * 1024 + r) by (nonlinear_arith)
        requires
            t == c * (n * 32 * 32) + c * (32 * 32) + sr * 32 + er,
            q == c * n + c,
            r == sr * 32 + er,
    ;
    assert(0 <= r < 1024) by (nonlinear_arith)
        requires
            0 <= sr < 32,
            0 <= er < 32,
            r == sr * 32 + er,
    ;
    lemma_fundamental_div_mod_converse(t, 1024, q, r);
    lemma_fundamental_div_mod_converse(q, n, c, c);
    lemma_fundamental_div_mod_converse(r, 32, sr, er);
    assert(q < n * n) by (nonlinear_arith)
        requires
            0 <= c < n,
            q == c * n + c,
    ;
    assert(t < n * n * 1024) by (nonlinear_arith)
        requires
            t == q * 1024 + r,
            0 <= q < n * n,
            0 <= r < 1024,
    ;
    assert(0 <= q) by (nonlinear_arith)
        requires
            0 <= c,
            0 <= n,
            q == c * n + c,
    ;
}

proof fn lemma_region_parts_inverse(n: int, t: int)
    requires
        n > 0,
        t >= 0,
    ensures
        ({
            let (sc, ec, a, b) = region_slot_parts(n, t);
            t == sc * (n * MAX_REGIONS * MAX_REGIONS) + ec * (MAX_REGIONS * MAX_REGIONS) + a * MAX_REGIONS + b
        }),
{
    let q = t / 1024;
    let r = t % 1024;
    lemma_fundamental_div_mod(t, 1024);
    lemma_fundamental_div_mod(q, n);
    lemma_fundamental_div_mod(r, 32);
    let (sc, ec, a, b) = region_slot_parts(n, t);
    assert(t == sc * (n * 32 * 32) + ec * (32 * 32) + a * 32 + b) by (nonlinear_arith)
        requires
            t == 1024 * q + r,
            q == n * sc + ec,
            r == 32 * a + b,
    ;
}

impl HierarchicalGraph {
    /// Copies each stored cluster's local routing table into `routing`, for
    /// start and end regions below its region count (the cluster being both
    /// start and end cluster); other entries are left as they were.
    fn export_region_routes(&self, routing: &mut NavigationRouting)
        requires
            self.wf(),
            old(routing).region_routing.wf(),
            old(routing).region_routing.clusters() == self.cluster_cols * self.cluster_rows,
            self.cluster_cols * self.cluster_rows <= u32::MAX,
        ensures
            final(routing).region_routing.wf(),
            final(routing).region_routing.clusters() == old(routing).region_routing.clusters(),
            final(routing).island_routing == old(routing).island_routing,
            final(routing).region_routing.entries().len() == old(routing).region_routing.entries().len(),
            forall|t: int|
                0 <= t < old(routing).region_routing.entries().len() ==> #[trigger] final(routing).region_routing.entries()[t]
                    == region_entry_after(self, old(routing).region_routing.entries(), (self.cluster_cols * self.cluster_rows) as int, 0, 0, t),
    {
        let ghost before = routing.region_routing.entries();
        let cols = self.cluster_cols;
        let n = self.cluster_cols * self.cluster_rows;
        let mut c: usize = 0;
        while c < n
            invariant
                self.wf(),
                cols == self.cluster_cols,
                n == self.cluster_cols * self.cluster_rows,
                n <= u32::MAX,
                routing.region_routing.wf(),
                routing.region_routing.clusters() == n,
                routing.island_routing == old(routing).island_routing,
                before == old(routing).region_routing.entries(),
                routing.region_routing.entries().len() == before.len(),
                c <= n,
                forall|t: int| 0 <= t < before.len() ==> #[trigger] routing.region_routing.entries()[t] == region_entry_after(self, before, c as int, 0, 0, t),
            decreases n - c,
        {
            proof {
                assert(cols > 0) by (nonlinear_arith)
                    requires
                        c < cols * self.cluster_rows,
                        cols == self.cluster_cols,
                ;
                lemma_fundamental_div_mod(c as int, cols as int);
                assert(c / cols < self.cluster_rows) by (nonlinear_arith)
                    requires
                        c == cols * (c / cols) + c % cols,
                        0 <= c % cols < cols,
                        c < cols * self.cluster_rows,
                ;
                assert((c / cols) * cols + c % cols == c) by (nonlinear_arith)
                    requires
                        c == cols * (c / cols) + c % cols,
                ;
            }
            let cx = c % cols;
            let cy = c / cols;
            match self.get_cluster(cx, cy) {
                Some(cl) => {
                    let count = cl.region_count;
                    proof {
                        assert(self.cluster_storage@[c as int] is Some);
                        assert(cl.wf());
                    }
                    let mut sr: usize = 0;
                    while sr < count
                        invariant
                            self.wf(),
                            cols == self.cluster_cols,
                            n == self.cluster_cols * self.cluster_rows,
                            n <= u32::MAX,
                            c < n,
                            cx == c % cols,
                            cy == c / cols,
                            self.cluster_at(cx as int, cy as int) == Some(*cl),
                            cl.wf(),
                            count == cl.region_count,
                            routing.region_routing.wf(),
                            routing.region_routing.clusters() == n,
                            routing.island_routing == old(routing).island_routing,
                            before == old(routing).region_routing.entries(),
                            routing.region_routing.entries().len() == before.len(),
                            sr <= count,
                            forall|t: int| 0 <= t < before.len() ==> #[trigger] routing.region_routing.entries()[t] == region_entry_after(self, before, c as int, sr as int, 0, t),
                        decreases count - sr,
                    {
                        let mut er: usize = 0;
                        while er < count
                            invariant
                                self.wf(),
                                cols == self.cluster_cols,
                                n == self.cluster_cols * self.cluster_rows,
                                n <= u32::MAX,
                                c < n,
                                cx == c % cols,
                                cy == c / cols,
                                self.cluster_at(cx as int, cy as int) == Some(*cl),
                                cl.wf(),
                                count == cl.region_count,
                                routing.region_routing.wf(),
                                routing.region_routing.clusters() == n,
                                routing.island_routing == old(routing).island_routing,
                                before == old(routing).region_routing.entries(),
                                routing.region_routing.entries().len() == before.len(),
                                sr < count,
                                er <= count,
                                forall|t: int| 0 <= t < before.len() ==> #[trigger] routing.region_routing.entries()[t] == region_entry_after(self, before, c as int, sr as int, er as int, t),
                            decreases count - er,
                        {
                            let v = cl.route(sr, er);
                            let ghost t0: int = c * (n * MAX_REGIONS * MAX_REGIONS) + c * (MAX_REGIONS * MAX_REGIONS) + sr * MAX_REGIONS + er;
                            proof {
                                lemma_region_slot(n as int, c as int, sr as int, er as int);
                                assert(region_value(self, t0) == Some(v));
                            }
                            let ghost e0 = routing.region_routing.entries();
                            routing.region_routing.set_route(
                                ClusterArenaIdx(c as u32),
                                ClusterArenaIdx(c as u32),
                                LocalRegionId(sr as u8),
                                LocalRegionId(er as u8),
                                LocalRegionId(v),
                            );
                            proof {
                                assert forall|t: int| 0 <= t < before.len() implies #[trigger] routing.region_routing.entries()[t] == region_entry_after(self, before, c as int, sr as int, er + 1, t) by {
                                    if t != t0 {
                                        assert(routing.region_routing.entries()[t] == e0[t]);
                                        assert(e0[t] == region_entry_after(self, before, c as int, sr as int, er as int, t));
                                        lemma_region_parts_inverse(n as int, t);
                                    }
                                }
                            }
                            er = er + 1;
                        }
                        proof {
                            assert forall|t: int| 0 <= t < before.len() implies #[trigger] routing.region_routing.entries()[t] == region_entry_after(self, before, c as int, sr + 1, 0, t) by {
                                assert(routing.region_routing.entries()[t] == region_entry_after(self, before, c as int, sr as int, count as int, t));
                            }
                        }
                        sr = sr + 1;
                    }
                    proof {
                        assert forall|t: int| 0 <= t < before.len() implies #[trigger] routing.region_routing.entries()[t] == region_entry_after(self, before, c + 1, 0, 0, t) by {
                            assert(routing.region_routing.entries()[t] == region_entry_after(self, before, c as int, count as int, 0, t));
                        }
                    }
                },
                None => {
                    proof {
                        assert forall|t: int| 0 <= t < before.len() implies #[trigger] routing.region_routing.entries()[t] == region_entry_after(self, before, c + 1, 0, 0, t) by {
                            assert(routing.region_routing.entries()[t] == region_entry_after(self, before, c as int, 0, 0, t));
                        }
                    }
                },
            }
            c = c + 1;
        }
    }
}

impl HierarchicalGraph {
    /// Copies the graph's routes into `routing`, whose tables are sized for
    /// this graph: for every pair of exported islands (see
    /// `exported_island`) between which the graph has a first portal, that
    /// portal; and for every stored cluster, its local routing entries
    /// between regions below its region count.  Every other entry is left as
    /// it was.
    pub fn populate_navigation_routing(&self, routing: &mut NavigationRouting)
        requires
            self.wf(),
            old(routing).island_routing.wf(),
            old(routing).region_routing.wf(),
            old(routing).island_routing.capacity() == self.total_island_capacity,
            old(routing).region_routing.clusters() == self.cluster_cols * self.cluster_rows,
            self.total_island_capacity <= u32::MAX,
        ensures
            final(routing).island_routing.wf(),
            final(routing).region_routing.wf(),
            final(routing).island_routing.capacity() == old(routing).island_routing.capacity(),
            final(routing).region_routing.clusters() == old(routing).region_routing.clusters(),
            forall|s: ClusterIslandId, d: ClusterIslandId|
                node_in_grid(self, s) && node_in_grid(self, d) ==> #[trigger] final(routing).island_routing.route(
                    IslandArenaIdx(node_index(self, s) as u32),
                    IslandArenaIdx(node_index(self, d) as u32),
                ) == if exported_island(self, s) && exported_island(self, d) && graph_next_portal(self, s, d) is Some {
                    graph_next_portal(self, s, d)
                } else {
                    old(routing).island_routing.route(IslandArenaIdx(node_index(self, s) as u32), IslandArenaIdx(node_index(self, d) as u32))
                },
            forall|cx: int, cy: int, sr: int, er: int|
                #![trigger self.cluster_at(cx, cy), final(routing).region_routing.next_region(
                    ClusterArenaIdx((cy * self.cluster_cols + cx) as u32),
                    ClusterArenaIdx((cy * self.cluster_cols + cx) as u32),
                    LocalRegionId(sr as u8),
                    LocalRegionId(er as u8),
                )]
                0 <= cx < self.cluster_cols && 0 <= cy < self.cluster_rows && self.cluster_at(cx, cy) is Some && 0 <= sr < self.cluster_at(cx, cy)->0.region_count
                    && 0 <= er < self.cluster_at(cx, cy)->0.region_count ==> final(routing).region_routing.next_region(
                    ClusterArenaIdx((cy * self.cluster_cols + cx) as u32),
                    ClusterArenaIdx((cy * self.cluster_cols + cx) as u32),
                    LocalRegionId(sr as u8),
                    LocalRegionId(er as u8),
                ) == if self.cluster_at(cx, cy)->0.route_spec(sr, er) == NO_REGION {
                    None
                } else {
                    Some(LocalRegionId(self.cluster_at(cx, cy)->0.route_spec(sr, er)))
                },
            forall|t: int|
                0 <= t < old(routing).region_routing.entries().len() && region_value(self, t) is None ==> #[trigger] final(routing).region_routing.entries()[t]
                    == old(routing).region_routing.entries()[t],
    {
        let ghost r0 = *routing;
        proof {
            assert(self.cluster_cols * self.cluster_rows <= self.total_island_capacity) by (nonlinear_arith)
                requires
                    self.total_island_capacity == self.cluster_cols * self.cluster_rows * MAX_ISLANDS,
            ;
        }
        self.export_island_routes(routing);
        let ghost r1 = *routing;
        self.export_region_routes(routing);
        proof {
            let cap = self.total_island_capacity as int;
            assert forall|s: ClusterIslandId, d: ClusterIslandId|
                node_in_grid(self, s) && node_in_grid(self, d) implies #[trigger] routing.island_routing.route(
                    IslandArenaIdx(node_index(self, s) as u32),
                    IslandArenaIdx(node_index(self, d) as u32),
                ) == if exported_island(self, s) && exported_island(self, d) && graph_next_portal(self, s, d) is Some {
                    graph_next_portal(self, s, d)
                } else {
                    r0.island_routing.route(IslandArenaIdx(node_index(self, s) as u32), IslandArenaIdx(node_index(self, d) as u32))
                } by {
                crate::pathfinding::island_routing::lemma_route_index_pub(self, s, d);
                let a = node_index(self, s);
                let b = node_index(self, d);
                let t = a * cap + b;
                assert(t < cap * cap) by (nonlinear_arith)
                    requires
                        0 <= a < cap,
                        0 <= b < cap,
                        t == a * cap + b,
                ;
                lemma_fundamental_div_mod_converse(t, cap, a, b);
                lemma_node_at_index(self, s);
                lemma_node_at_index(self, d);
                assert(routing.island_routing.entries()[t] == island_entry_after(self, r0.island_routing.entries(), t + 1, t));
                if graph_next_portal(self, s, d) is Some {
                    assert(graph_next_portal(self, s, d)->0 != crate::pathfinding::navigation_routing::NO_ROUTE);
                }
            }
            let n = (self.cluster_cols * self.cluster_rows) as int;
            assert forall|cx: int, cy: int, sr: int, er: int|
                0 <= cx < self.cluster_cols && 0 <= cy < self.cluster_rows && self.cluster_at(cx, cy) is Some && 0 <= sr < self.cluster_at(cx, cy)->0.region_count
                    && 0 <= er < self.cluster_at(cx, cy)->0.region_count implies #[trigger] routing.region_routing.next_region(
                    ClusterArenaIdx((cy * self.cluster_cols + cx) as u32),
                    ClusterArenaIdx((cy * self.cluster_cols + cx) as u32),
                    LocalRegionId(sr as u8),
                    LocalRegionId(er as u8),
                ) == if self.cluster_at(cx, cy)->0.route_spec(sr, er) == NO_REGION {
                    None
                } else {
                    Some(LocalRegionId(self.cluster_at(cx, cy)->0.route_spec(sr, er)))
                } by {
                let c = cy * self.cluster_cols + cx;
                assert(0 <= c < n) by (nonlinear_arith)
                    requires
                        0 <= cx < self.cluster_cols,
                        0 <= cy < self.cluster_rows,
                        c == cy * self.cluster_cols + cx,
                        n == self.cluster_cols * self.cluster_rows,
                ;
                assert(self.cluster_storage@[c] is Some);
                assert(self.cluster_at(cx, cy)->0.wf());
                lemma_region_slot(n, c, sr, er);
                lemma_fundamental_div_mod_converse(c, self.cluster_cols as int, cy, cx);
                let t = c * (n * MAX_REGIONS * MAX_REGIONS) + c * (MAX_REGIONS * MAX_REGIONS) + sr * MAX_REGIONS + er;
                assert(routing.region_routing.slot(
                    ClusterArenaIdx((cy * self.cluster_cols + cx) as u32),
                    ClusterArenaIdx((cy * self.cluster_cols + cx) as u32),
                    LocalRegionId(sr as u8),
                    LocalRegionId(er as u8),
                ) == t);
                assert(routing.region_routing.entries()[t] == region_entry_after(self, r1.region_routing.entries(), n, 0, 0, t));
            }
            assert forall|t: int|
                0 <= t < r0.region_routing.entries().len() && region_value(self, t) is None implies #[trigger] routing.region_routing.entries()[t]
                    == r0.region_routing.entries()[t] by {
                assert(routing.region_routing.entries()[t] == region_entry_after(self, r1.region_routing.entries(), n, 0, 0, t));
            }
        }
    }
}

} // verus!
