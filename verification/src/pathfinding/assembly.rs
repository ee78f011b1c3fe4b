//! Building the whole hierarchical graph from a flow field: clusters cut into
//! regions and islands, portals across cluster borders and corners, island
//! links, and the island routing table.
use vstd::prelude::*;
use crate::flow_field::FlowField;
use crate::pathfinding::types::{Region, Rect, MAX_REGIONS, MAX_ISLANDS, NO_PATH, CLUSTER_SIZE};
use crate::pathfinding::cluster::Cluster;
use crate::pathfinding::region_decomposition::{decompose_cluster_into_regions, cluster_box, cluster_rects, region_from_rect, rect_corners, corners_in_range};
use crate::pathfinding::region_connectivity::{same_portals, least_cost_first, lemma_least_cost_transfer, build_region_connectivity, partner_portals, with_partner_portals, local_routing_spec, region_step, region_walk, region_reachable, regions_in_range, lemma_partner_portals_ok};
use crate::pathfinding::island_detection::{identify_islands, regions_dense, regions_kept, islands_partition, island_index, region_listed};
use crate::pathfinding::island_links::links_ready;
use crate::pathfinding::portal_scan::{clusters_across, border_pairs_inv, corner_pairs_inv, some_border_pair, some_corner_pair, border_pair, corner_pair, border_exists, border_line, border_span, cell_on, across, corner_cells, corner_open, pair_at, run_ok, passable};
use crate::pathfinding::graph::HierarchicalGraph;
use crate::pathfinding::island_links::{portal_placed, portals_placed, portal_island_spec, same_but_links, clusters_linked, map_linked, map_before, map_entry, linked, portal_link, link_entry, last_link, no_link};
use crate::pathfinding::types::{Direction, direction_index};
use crate::pathfinding::island_routing::{routing_ready, routes_ok, same_routing_graph, lemma_routes_ok_kept};
use crate::pathfinding::portal_scan::{lemma_border_inv_extends, lemma_corner_inv_extends};
use crate::pathfinding::portal_scan::{build_straight_portals, build_corner_portals, extends};
use crate::pathfinding::region_decomposition::{region_lookup_spec, region_holds};
use crate::pathfinding::types::{IslandId, RegionId};
use crate::pathfinding::island_routing::ISLAND_EDGE_BOUND;
use crate::pathfinding::cluster::{portal_at, STRAIGHT_PORTAL_COST_BITS, DIAGONAL_PORTAL_COST_BITS};
use crate::pathfinding::types::Node;

verus! {

/// `regs` holds the regions the decomposition of cluster `(cx, cy)` yields,
/// as first built: region `k` of the first `count` slots from the `k`-th
/// rectangle, the other slots empty.
pub open spec fn decomposed_regions(ff: &FlowField, cx: int, cy: int, regs: Seq<Option<Region>>, count: int) -> bool {
    let (x0, x1, y0, y1) = cluster_box(ff, cx, cy);
    &&& regs.len() == MAX_REGIONS
    &&& forall|k: int| 0 <= k < MAX_REGIONS ==> ((#[trigger] regs[k]) is Some <==> k < count)
    &&& if x0 >= ff.width || y0 >= ff.height {
        count == 0
    } else {
        exists|rects: Seq<Rect>|
            #[trigger] cluster_rects(ff, cx, cy, rects) && count == (if rects.len() <= MAX_REGIONS { rects.len() } else { MAX_REGIONS as nat })
                && forall|k: int| 0 <= k < count ==> region_from_rect(#[trigger] regs[k]->0, k, rects[k])
    }
}

/// The regions of `c` are those of the decomposition of cluster `(cx, cy)`,
/// each with its portals to the regions it shares an edge with (see
/// `partner_portals`) and whatever island it was given.
pub open spec fn cluster_regions_built(ff: &FlowField, cx: int, cy: int, c: &Cluster) -> bool {
    exists|regs: Seq<Option<Region>>|
        #[trigger] decomposed_regions(ff, cx, cy, regs, c.region_count as int) && forall|r: int|
            0 <= r < MAX_REGIONS ==> match (regs[r], #[trigger] c.regions@[r]) {
                (Some(o), Some(n)) => n.id == o.id && n.bounds == o.bounds && n.vertices@ == o.vertices@ && n.is_dangerous
                    == o.is_dangerous && n.portals@ == partner_portals(regs, r, c.region_count as int),
                (None, None) => true,
                _ => false,
            }
}

/// A cluster as the build leaves it: its regions from the decomposition of
/// cluster `(cx, cy)`, joined by portals, routed locally, and grouped into islands.
pub open spec fn cluster_built(ff: &FlowField, cx: int, cy: int, c: &Cluster) -> bool {
    &&& c.wf()
    &&& c.id == (cx as usize, cy as usize)
    &&& cluster_regions_built(ff, cx, cy, c)
    &&& local_routing_spec(c)
    &&& islands_partition(c)
    &&& links_ready(c)
}

/// No island of `c` is linked to a portal yet.
pub open spec fn links_clear(c: &Cluster) -> bool {
    forall|i: int| 0 <= i < MAX_ISLANDS * 8 ==> #[trigger] c.neighbor_connectivity@[i] is None
}

proof fn lemma_routing_kept(c: &Cluster, m: &Cluster)
    requires
        regions_kept(c, m),
        m.wf(),
        local_routing_spec(m),
    ensures
        local_routing_spec(c),
{
    assert forall|a: int, b: int| #[trigger] region_step(c.regions@, a, b) == region_step(m.regions@, a, b) by {
        if 0 <= a < MAX_REGIONS {
            assert((c.regions@[a] is Some) == m.regions@[a] is Some);
            if c.regions@[a] is Some {
                let pc = c.regions@[a]->0.portals@;
                let pm = m.regions@[a]->0.portals@;
                assert(pc == pm);
                if region_step(m.regions@, a, b) {
                    let k = choose|k: int| 0 <= k < pm.len() && (#[trigger] m.regions@[a]->0.portals@[k]).next_region.0 == b;
                    assert(c.regions@[a]->0.portals@[k] == pm[k]);
                }
                if region_step(c.regions@, a, b) {
                    let k = choose|k: int| 0 <= k < pc.len() && (#[trigger] c.regions@[a]->0.portals@[k]).next_region.0 == b;
                    assert(m.regions@[a]->0.portals@[k] == pc[k]);
                }
            }
        }
    }
    assert forall|p: Seq<int>| #[trigger] region_walk(c.regions@, p) == region_walk(m.regions@, p) by {
        if region_walk(c.regions@, p) {
            assert forall|i: int| 0 <= i < p.len() - 1 implies #[trigger] region_step(m.regions@, p[i], p[i + 1]) by {
                assert(region_step(c.regions@, p[i], p[i + 1]));
            }
        }
        if region_walk(m.regions@, p) {
            assert forall|i: int| 0 <= i < p.len() - 1 implies #[trigger] region_step(c.regions@, p[i], p[i + 1]) by {
                assert(region_step(m.regions@, p[i], p[i + 1]));
            }
        }
    }
    assert forall|a: int, b: int| #[trigger] region_reachable(c.regions@, a, b) == region_reachable(m.regions@, a, b) by {
        if region_reachable(c.regions@, a, b) {
            let p = choose|p: Seq<int>| #[trigger] region_walk(c.regions@, p) && p[0] == a && p.last() == b;
            assert(region_walk(m.regions@, p));
        }
        if region_reachable(m.regions@, a, b) {
            let p = choose|p: Seq<int>| #[trigger] region_walk(m.regions@, p) && p[0] == a && p.last() == b;
            assert(region_walk(c.regions@, p));
        }
    }
    assert forall|i: int, j: int| 0 <= i < MAX_REGIONS && 0 <= j < MAX_REGIONS implies #[trigger] c.route_spec(i, j) == m.route_spec(i, j) by {}
    assert forall|i: int| 0 <= i < MAX_REGIONS implies (#[trigger] c.regions@[i] is None) == m.regions@[i] is None by {}
    assert(same_portals(c.regions@, m.regions@)) by {
        assert forall|i: int| 0 <= i < c.regions@.len() implies (#[trigger] c.regions@[i] is Some) == (m.regions@[i] is Some) && (c.regions@[i] is Some ==> c.regions@[i]->0.portals@
            == m.regions@[i]->0.portals@) by {
            assert((c.regions@[i] is Some) == m.regions@[i] is Some);
        }
    }
    assert(same_portals(m.regions@, c.regions@));
    assert forall|i: int, j: int, h: int| #[trigger] least_cost_first(c.regions@, i, j, h) == least_cost_first(m.regions@, i, j, h) by {
        if least_cost_first(m.regions@, i, j, h) {
            lemma_least_cost_transfer(m.regions@, c.regions@, i, j, h);
        }
        if least_cost_first(c.regions@, i, j, h) {
            lemma_least_cost_transfer(c.regions@, m.regions@, i, j, h);
        }
    }
}

/// Builds cluster `(cx, cy)`: its regions from the decomposition of its
/// cells, their portals and local routing table, and its islands.
fn build_cluster(cx: usize, cy: usize, ff: &FlowField) -> (c: Cluster)
    requires
        ff.wf(),
        ff.width + 0x2_0000 <= usize::MAX,
        ff.height + 0x2_0000 <= usize::MAX,
        cx < clusters_across(ff.width as int),
        cy < clusters_across(ff.height as int),
    ensures
        cluster_built(ff, cx as int, cy as int, &c),
        links_clear(&c),
{
    proof {
        assert(cx * CLUSTER_SIZE < ff.width && cy * CLUSTER_SIZE < ff.height);
    }
    let mut cluster = Cluster::new((cx, cy));
    let mut regions = decompose_cluster_into_regions((cx, cy), ff);
    let ghost rv = regions@;
    let count = regions.len();
    cluster.region_count = count;
    let ghost c0 = cluster;
    while regions.len() > 0
        invariant
            count == rv.len(),
            count <= MAX_REGIONS,
            regions@.len() <= count,
            regions@ == rv.subrange(0, regions@.len() as int),
            cluster.wf(),
            cluster.id == (cx, cy),
            cluster.region_count == count,
            cluster.island_count == 0,
            cluster.local_routing@ == c0.local_routing@,
            cluster.neighbor_connectivity@ == c0.neighbor_connectivity@,
            cluster.islands@ == c0.islands@,
            forall|k: int| 0 <= k < MAX_REGIONS ==> #[trigger] cluster.regions@[k] == if regions@.len() <= k < count {
                Some(rv[k])
            } else {
                None::<Region>
            },
        decreases regions@.len(),
    {
        let i = regions.len() - 1;
        let r = regions.pop().unwrap();
        proof {
            assert(r == rv[i as int]);
        }
        cluster.regions.set(i, Some(r));
        proof {
            assert(regions@ =~= rv.subrange(0, i as int));
        }
    }
    let ghost regs0 = cluster.regions@;
    proof {
        assert forall|k: int| 0 <= k < MAX_REGIONS implies ((#[trigger] regs0[k]) is Some <==> k < count) by {}
        assert(decomposed_regions(ff, cx as int, cy as int, regs0, count as int));
        assert forall|i: int| 0 <= i < count && (#[trigger] regs0[i]) is Some implies crate::pathfinding::region_connectivity::vertices_in_range(regs0[i]->0.vertices@) by {
            let b = rv[i].bounds;
            assert(regs0[i]->0 == rv[i]);
        }
    }
    build_region_connectivity(&mut cluster);
    let ghost mid = cluster;
    proof {
        assert forall|i: int| 0 <= i < MAX_REGIONS implies ((#[trigger] mid.regions@[i]) is Some <==> i < mid.region_count) by {
            if i < count {
                assert(with_partner_portals(regs0, count as int, i, mid.regions@[i]));
            }
        }
        assert forall|i: int| 0 <= i < mid.region_count implies {
            let r = (#[trigger] mid.regions@[i])->0;
            &&& r.id.0 == i
            &&& r.bounds.min.in_range()
            &&& r.bounds.max.in_range()
        } by {
            assert(with_partner_portals(regs0, count as int, i, mid.regions@[i]));
            assert(regs0[i]->0 == rv[i]);
        }
        assert forall|i: int, j: int| 0 <= i < MAX_REGIONS && 0 <= j < MAX_REGIONS implies (#[trigger] mid.route_spec(i, j) == NO_PATH
            || mid.route_spec(i, j) < mid.region_count) by {
            let e = mid.route_spec(i, j);
            if i < count && i != j && mid.regions@[i] is Some && e != NO_PATH {
                assert(region_step(mid.regions@, i, e as int));
                assert(with_partner_portals(regs0, count as int, i, mid.regions@[i]));
                let k = choose|k: int| 0 <= k < mid.regions@[i]->0.portals@.len() && (#[trigger] mid.regions@[i]->0.portals@[k]).next_region.0 == e;
                lemma_partner_portals_ok(regs0, count as int, i, count as int);
                assert(regs0[i]->0.portals@.len() == 0);
                assert(mid.regions@[i]->0.portals@ == regs0[i]->0.portals@ + partner_portals(regs0, i, count as int));
                assert(mid.regions@[i]->0.portals@[k] == partner_portals(regs0, i, count as int)[k]);
            }
        }
        assert(regions_dense(&mid));
    }
    identify_islands(&mut cluster);
    proof {
        lemma_routing_kept(&cluster, &mid);
        assert forall|r: int| 0 <= r < MAX_REGIONS implies match (regs0[r], #[trigger] cluster.regions@[r]) {
            (Some(o), Some(n)) => n.id == o.id && n.bounds == o.bounds && n.vertices@ == o.vertices@ && n.is_dangerous
                == o.is_dangerous && n.portals@ == partner_portals(regs0, r, cluster.region_count as int),
            (None, None) => true,
            _ => false,
        } by {
            if r < count {
                assert(with_partner_portals(regs0, count as int, r, mid.regions@[r]));
                assert(regs0[r]->0.portals@.len() == 0);
                assert(regs0[r]->0.portals@ + partner_portals(regs0, r, count as int) =~= partner_portals(regs0, r, count as int));
            }
        }
        assert(cluster_regions_built(ff, cx as int, cy as int, &cluster));
        assert forall|i: int| 0 <= i < cluster.region_count implies corners_in_range((#[trigger] cluster.regions@[i])->0.vertices@) by {
            assert(with_partner_portals(regs0, count as int, i, mid.regions@[i]));
            assert(regs0[i]->0 == rv[i]);
            assert(cluster.regions@[i]->0.vertices@ == rect_corners(rv[i].bounds));
        }
        assert forall|i: int| 0 <= i < cluster.region_count implies #[trigger] island_index(&cluster, i) < MAX_ISLANDS by {
            assert(region_listed(&cluster, i));
        }
    }
    cluster
}

/// Portal `k` of `g` lies in its own cluster on the grid, and has one
/// connection, whose cost lies within the routing bound.
pub open spec fn portal_sound(g: &HierarchicalGraph, ff: &FlowField, k: int) -> bool {
    &&& portal_placed(ff, g.portals@[k])
    &&& g.portal_connections@[k]@.len() == 1
    &&& 0 <= g.portal_connections@[k]@[0].1.bits <= ISLAND_EDGE_BOUND
}

proof fn lemma_border_pairs_sound(g: &HierarchicalGraph, ff: &FlowField, wc: int, hc: int, vertical: bool, from: int, to: int, o: int, i: int)
    requires
        border_pairs_inv(g, ff, wc, hc, vertical, from, to, o, i),
        g.portals_wf(),
        0 <= from,
        to <= g.portals@.len(),
        wc == clusters_across(ff.width as int),
        hc == clusters_across(ff.height as int),
    ensures
        forall|k: int| from <= k < to ==> #[trigger] portal_sound(g, ff, k),
{
    assert forall|k: int| from <= k < to implies #[trigger] portal_sound(g, ff, k) by {
        let k0 = if (k - from) % 2 == 0 { k } else { k - 1 };
        assert(some_border_pair(g, ff, wc, hc, vertical, k0));
        let (cx, cy, a, b) = choose|cx: int, cy: int, a: int, b: int|
            #![trigger border_pair(g, ff, vertical, k0, cx, cy, a, b)]
            border_exists(ff, wc, hc, vertical, cx, cy) && border_pair(g, ff, vertical, k0, cx, cy, a, b);
        let l = border_line(vertical, cx, cy);
        let span = border_span(ff, vertical, cx, cy);
        assert(run_ok(ff, vertical, l, l + 1, span.0, span.1, (a as usize, b as usize)));
        let mid = (a + b) / 2;
        assert(span.0 <= mid < span.1);
    }
}

proof fn lemma_corner_pairs_sound(g: &HierarchicalGraph, ff: &FlowField, wc: int, hc: int, from: int, to: int, o: int, i: int)
    requires
        corner_pairs_inv(g, ff, wc, hc, from, to, o, i),
        g.portals_wf(),
        0 <= from,
        to <= g.portals@.len(),
        wc == clusters_across(ff.width as int),
        hc == clusters_across(ff.height as int),
    ensures
        forall|k: int| from <= k < to ==> #[trigger] portal_sound(g, ff, k),
{
    assert forall|k: int| from <= k < to implies #[trigger] portal_sound(g, ff, k) by {
        let k0 = if (k - from) % 2 == 0 { k } else { k - 1 };
        assert(some_corner_pair(g, ff, wc, hc, k0));
        let (cx, cy, rising) = choose|cx: int, cy: int, rising: bool|
            #![trigger corner_pair(g, ff, rising, k0, cx, cy)]
            corner_open(ff, wc, hc, rising, cx, cy) && corner_pair(g, ff, rising, k0, cx, cy);
        let (n1, c1, n2, c2) = corner_cells(rising, cx, cy);
        assert(passable(ff, n1.x as int, n1.y as int));
        assert(passable(ff, n2.x as int, n2.y as int));
    }
}

/// The cluster grid over the flow field's cells is small enough for the
/// routing table, which holds one entry per pair of island slots.
pub open spec fn grid_fits(ff: &FlowField) -> bool {
    let n = clusters_across(ff.width as int) * clusters_across(ff.height as int);
    n * MAX_ISLANDS * (n * MAX_ISLANDS) <= usize::MAX
}

/// Every island recorded in the portal-to-island map has a slot.
pub open spec fn map_islands_ok(g: &HierarchicalGraph) -> bool {
    forall|i: int| 0 <= i < g.portal_island_map@.len() ==> (#[trigger] g.portal_island_map@[i] matches Some(ni) ==> (ni.0 as int) < MAX_ISLANDS)
}

/// Every cluster of the first `y` rows of clusters, and the first `x` of row
/// `y`, is stored as built; every other slot is empty.
pub open spec fn clusters_built_before(g: &HierarchicalGraph, ff: &FlowField, y: int, x: int) -> bool {
    forall|cx: int, cy: int|
        0 <= cx < g.cluster_cols && 0 <= cy < g.cluster_rows ==> {
            let c = #[trigger] g.cluster_at(cx, cy);
            if cy < y || (cy == y && cx < x) {
                c is Some && cluster_built(ff, cx, cy, &c->0) && links_clear(&c->0)
            } else {
                c is None
            }
        }
}

proof fn lemma_island_from_spec(c: &Cluster, p: crate::fixed::FixedVec2, isl: IslandId)
    requires
        links_ready(c),
        portal_island_spec(c.regions@, c.region_count as int, p, Some(isl)),
    ensures
        (isl.0 as int) < MAX_ISLANDS,
{
    let regs = c.regions@;
    let count = c.region_count as int;
    if exists|rid: RegionId| #[trigger] region_lookup_spec(regs, count, p, Some(rid)) && Some(isl) == (match regs[rid.0 as int] {
        Some(reg) => Some(reg.island),
        None => None,
    }) {
        let rid = choose|rid: RegionId| #[trigger] region_lookup_spec(regs, count, p, Some(rid)) && Some(isl) == (match regs[rid.0 as int] {
            Some(reg) => Some(reg.island),
            None => None,
        });
        let i = choose|i: int|
            0 <= i < count && #[trigger] regs[i] is Some && region_holds(regs[i]->0, p) && regs[i]->0.id == rid
                && forall|j: int| 0 <= j < i && regs[j] is Some ==> !region_holds(#[trigger] regs[j]->0, p);
        assert(rid.0 == i);
        assert(island_index(c, i) < MAX_ISLANDS);
    } else {
        let j0 = choose|j0: int|
            #![trigger regs[j0]]
            0 <= j0 < count && crate::pathfinding::island_links::region_dist(regs, p, j0) < crate::pathfinding::island_detection::FAR_SQUARED_BITS && isl == regs[j0]->0.island
                && (forall|j: int| 0 <= j < j0 ==> #[trigger] crate::pathfinding::island_links::region_dist(regs, p, j) > crate::pathfinding::island_links::region_dist(regs, p, j0))
                && (forall|j: int| j0 < j < count ==> #[trigger] crate::pathfinding::island_links::region_dist(regs, p, j) >= crate::pathfinding::island_links::region_dist(regs, p, j0));
        assert(island_index(c, j0) < MAX_ISLANDS);
    }
}

/// `g` is what building from flow field `ff` makes of graph `prev`: an
/// empty, unbuilt graph for an empty field; otherwise a built graph with a
/// built cluster at every position, the portals along every open border
/// and corner, every island linked to its portals, no island recorded for
/// an unlinked portal, and a complete island routing table.
pub open spec fn graph_built_from(prev: &HierarchicalGraph, g: &HierarchicalGraph, ff: &FlowField) -> bool {
    &&& ff.width == 0 || ff.height == 0 ==> {
        &&& g.arena_wf()
        &&& g.portals_wf()
        &&& g.portals@.len() == 0
        &&& g.next_portal_id == 0
        &&& g.portal_connections@.len() == 0
        &&& g.portal_island_map@.len() == 0
        &&& !g.initialized
        &&& g.cluster_cols == prev.cluster_cols
        &&& g.cluster_rows == prev.cluster_rows
        &&& g.total_island_capacity == prev.total_island_capacity
        &&& forall|i: int| 0 <= i < g.cluster_storage@.len() ==> #[trigger] g.cluster_storage@[i] is None
        &&& forall|i: int| 0 <= i < g.island_routing_storage@.len() ==> #[trigger] g.island_routing_storage@[i] == crate::pathfinding::graph::NO_ROUTE
    }
    &&& ff.width > 0 && ff.height > 0 ==> {
        &&& g.wf()
        &&& g.initialized
        &&& g.cluster_cols == clusters_across(ff.width as int)
        &&& g.cluster_rows == clusters_across(ff.height as int)
        &&& forall|cx: int, cy: int|
            0 <= cx < g.cluster_cols && 0 <= cy < g.cluster_rows ==> (#[trigger] g.cluster_at(cx, cy)) is Some
                && cluster_built(ff, cx, cy, &g.cluster_at(cx, cy)->0)
        &&& portal_layout(g, ff, g.cluster_cols as int, g.cluster_rows as int)
        &&& links_built(g)
        &&& forall|i: int|
            0 <= i < g.portal_island_map@.len() ==> linked(g, i) || (#[trigger] g.portal_island_map@[i]) is None
        &&& routes_ok(g)
    }
}

impl HierarchicalGraph {
    /// Builds the graph over a flow field: every cluster of the grid is cut
    /// into regions and islands (see `cluster_built`), portals are laid across
    /// every open run of every cluster border and every open corner diagonal,
    /// islands are linked to the portals they reach, and the island routing
    /// table is filled (see `routes_ok`).  An empty field leaves the graph
    /// reset.
    pub fn build_graph_with_regions_sync(&mut self, flow_field: &FlowField)
        requires
            old(self).arena_wf(),
            map_islands_ok(old(self)),
            flow_field.wf(),
            flow_field.geometry_ok(),
            flow_field.centres_in_range(),
            flow_field.width + 0x2_0000 <= usize::MAX,
            flow_field.height + 0x2_0000 <= usize::MAX,
            grid_fits(flow_field),
        ensures
            graph_built_from(old(self), final(self), flow_field),
    {
        self.reset();
        if flow_field.width == 0 || flow_field.height == 0 {
            return;
        }
        let wc = (flow_field.width + CLUSTER_SIZE - 1) / CLUSTER_SIZE;
        let hc = (flow_field.height + CLUSTER_SIZE - 1) / CLUSTER_SIZE;
        if self.cluster_cols != wc || self.cluster_rows != hc {
            *self = HierarchicalGraph::new(wc, hc);
        }
        let ghost g0 = *self;
        proof {
            assert forall|x: int, y: int| 0 <= x < self.cluster_cols && 0 <= y < self.cluster_rows implies {
                let cc = #[trigger] self.cluster_at(x, y);
                if y < 0 || (y == 0 && x < 0) {
                    cc is Some && cluster_built(flow_field, x, y, &cc->0) && links_clear(&cc->0)
                } else {
                    cc is None
                }
            } by {
                assert(y * wc + x < wc * hc) by (nonlinear_arith)
                    requires
                        0 <= x < wc,
                        0 <= y < hc,
                ;
            }
            assert(wc >= 1 && hc >= 1);
            assert(wc * hc >= 1) by (nonlinear_arith)
                requires
                    wc >= 1,
                    hc >= 1,
            ;
        }
        let mut cy: usize = 0;
        while cy < hc
            invariant
                cy <= hc,
                wc == clusters_across(flow_field.width as int),
                hc == clusters_across(flow_field.height as int),
                flow_field.wf(),
                flow_field.width + 0x2_0000 <= usize::MAX,
                flow_field.height + 0x2_0000 <= usize::MAX,
                self.arena_wf(),
                self.cluster_cols == wc,
                self.cluster_rows == hc,
                self.portals@.len() == 0,
                self.portal_connections@.len() == 0,
                self.next_portal_id == 0,
                !self.initialized,
                self.portal_island_map@ == g0.portal_island_map@,
                self.island_routing_storage@ == g0.island_routing_storage@,
                self.total_island_capacity == g0.total_island_capacity,
                self.clusters_wf(),
                clusters_built_before(self, flow_field, cy as int, 0),
            decreases hc - cy,
        {
            let mut cx: usize = 0;
            while cx < wc
                invariant
                    cy < hc,
                    cx <= wc,
                    wc == clusters_across(flow_field.width as int),
                    hc == clusters_across(flow_field.height as int),
                    flow_field.wf(),
                    flow_field.width + 0x2_0000 <= usize::MAX,
                    flow_field.height + 0x2_0000 <= usize::MAX,
                    self.arena_wf(),
                    self.cluster_cols == wc,
                    self.cluster_rows == hc,
                    self.portals@.len() == 0,
                    self.portal_connections@.len() == 0,
                    self.next_portal_id == 0,
                    !self.initialized,
                    self.portal_island_map@ == g0.portal_island_map@,
                    self.island_routing_storage@ == g0.island_routing_storage@,
                    self.total_island_capacity == g0.total_island_capacity,
                    self.clusters_wf(),
                    clusters_built_before(self, flow_field, cy as int, cx as int),
                decreases wc - cx,
            {
                let c = build_cluster(cx, cy, flow_field);
                let ghost gp = *self;
                self.set_cluster(cx, cy, c);
                proof {
                    assert forall|x: int, y: int| 0 <= x < self.cluster_cols && 0 <= y < self.cluster_rows implies {
                        let cc = #[trigger] self.cluster_at(x, y);
                        if y < cy || (y == cy && x < cx + 1) {
                            cc is Some && cluster_built(flow_field, x, y, &cc->0) && links_clear(&cc->0)
                        } else {
                            cc is None
                        }
                    } by {
                        assert(y * wc + x < wc * hc && cy * wc + cx < wc * hc) by (nonlinear_arith)
                            requires
                                0 <= x < wc,
                                0 <= y < hc,
                                cx < wc,
                                cy < hc,
                        ;
                        if x != cx || y != cy {
                            assert(true);
                            assert(y * wc + x != cy * wc + cx) by (nonlinear_arith)
                                requires
                                    0 <= x < wc,
                                    0 <= cx < wc,
                                    0 <= y,
                                    0 <= cy,
                                    x != cx || y != cy,
                            ;
                            assert(self.cluster_at(x, y) == gp.cluster_at(x, y));
                        }
                    }
                    assert forall|i: int|
                        0 <= i < self.cluster_storage@.len() && (#[trigger] self.cluster_storage@[i]) is Some implies {
                            let cc = self.cluster_storage@[i]->0;
                            &&& cc.wf()
                            &&& cc.id.1 * self.cluster_cols + cc.id.0 == i
                            &&& cc.id.0 < self.cluster_cols
                        } by {
                        let ghost idx: int = cy * wc + cx;
                        assert(idx < wc * hc) by (nonlinear_arith)
                            requires
                                cx < wc,
                                cy < hc,
                                idx == cy * wc + cx,
                        ;
                        assert(self.cluster_storage@ == gp.cluster_storage@.update(idx, Some(c)));
                        if i != idx {
                            assert(self.cluster_storage@[i] == gp.cluster_storage@[i]);
                        }
                    }
                }
                cx = cx + 1;
            }
            proof {
                assert forall|x: int, y: int| 0 <= x < self.cluster_cols && 0 <= y < self.cluster_rows implies {
                    let cc = #[trigger] self.cluster_at(x, y);
                    if y < cy + 1 || (y == cy + 1 && x < 0) {
                        cc is Some && cluster_built(flow_field, x, y, &cc->0) && links_clear(&cc->0)
                    } else {
                        cc is None
                    }
                } by {
                    assert(clusters_built_before(self, flow_field, cy as int, wc as int));
                }
            }
            cy = cy + 1;
        }
        proof {
            lemma_portal_budget(wc as int * hc as int);
            lemma_stored_ready(self, flow_field);
        }
        let ghost g1 = *self;
        build_straight_portals(self, flow_field, true, wc, hc);
        let ghost g2 = *self;
        let ghost n1 = self.next_portal_id as int;
        build_straight_portals(self, flow_field, false, wc, hc);
        let ghost g3 = *self;
        let ghost n2 = self.next_portal_id as int;
        build_corner_portals(self, flow_field, wc, hc);
        let ghost g4 = *self;
        let ghost n3 = self.next_portal_id as int;
        proof {
            lemma_border_inv_extends(&g4, &g3, flow_field, wc as int, hc as int, false, n1, n2, wc as int, 0);
            crate::pathfinding::portal_scan::lemma_extends_trans(&g4, &g3, &g2);
            lemma_border_inv_extends(&g4, &g2, flow_field, wc as int, hc as int, true, 0, n1, hc as int, 0);
            lemma_border_pairs_sound(&g4, flow_field, wc as int, hc as int, true, 0, n1, hc as int, 0);
            lemma_border_pairs_sound(&g4, flow_field, wc as int, hc as int, false, n1, n2, wc as int, 0);
            lemma_corner_pairs_sound(&g4, flow_field, wc as int, hc as int, n2, n3, hc as int, 0);
            assert forall|k: int| 0 <= k < g4.portals@.len() implies #[trigger] portal_placed(flow_field, g4.portals@[k]) by {
                assert(portal_sound(&g4, flow_field, k));
            }
            assert(self.cluster_storage@ == g1.cluster_storage@);
        }
        self.populate_island_portal_connectivity(flow_field);
        let ghost g5 = *self;
        proof {
            lemma_routing_ready_after_links(&g5, &g4, flow_field, &g0);
        }
        self.build_island_routing_table();
        let ghost g6 = *self;
        self.initialized = true;
        proof {
            lemma_routes_ok_kept(self, &g6);
            assert(self.cluster_storage@ == g5.cluster_storage@);
            assert(g4.cluster_storage@ == g1.cluster_storage@);
            assert forall|x: int, y: int| #[trigger] g4.cluster_at(x, y) is Some implies links_clear(&g4.cluster_at(x, y)->0) by {
                assert(g4.cluster_at(x, y) == g1.cluster_at(x, y));
            }
            lemma_links_built(self, &g5, &g4);
            assert forall|cx: int, cy: int|
                0 <= cx < self.cluster_cols && 0 <= cy < self.cluster_rows implies (#[trigger] self.cluster_at(cx, cy)) is Some
                    && cluster_built(flow_field, cx, cy, &self.cluster_at(cx, cy)->0) by {
                let s = cy * wc + cx;
                assert(0 <= s < wc * hc) by (nonlinear_arith)
                    requires
                        0 <= cx < wc,
                        0 <= cy < hc,
                        s == cy * wc + cx,
                ;
                assert(g1.cluster_at(cx, cy) == g4.cluster_at(cx, cy));
                assert(g5.cluster_storage@[s] is Some ==> same_but_links(&g5.cluster_storage@[s]->0, &g4.cluster_storage@[s]->0));
                lemma_built_kept(flow_field, cx, cy, &self.cluster_at(cx, cy)->0, &g4.cluster_at(cx, cy)->0);
            }
            assert(extends(self, &g4)) by {
                assert forall|i: int| 0 <= i < g4.portal_connections@.len() implies #[trigger] self.portal_connections@[i]@ == g4.portal_connections@[i]@ by {}
            }
            lemma_border_inv_extends(self, &g4, flow_field, wc as int, hc as int, true, 0, n1, hc as int, 0);
            lemma_border_inv_extends(self, &g4, flow_field, wc as int, hc as int, false, n1, n2, wc as int, 0);
            lemma_corner_inv_extends(self, &g4, flow_field, wc as int, hc as int, n2, n3, hc as int, 0);
            assert(portal_layout(self, flow_field, wc as int, hc as int));
            assert(same_link_basis(self, &g4)) by {
                assert forall|x: int, y: int| #![trigger self.cluster_at(x, y)]
                    (self.cluster_at(x, y) is Some) == (g4.cluster_at(x, y) is Some) && (self.cluster_at(x, y) is Some ==> self.cluster_at(x, y)->0.regions@
                        == g4.cluster_at(x, y)->0.regions@ && self.cluster_at(x, y)->0.region_count == g4.cluster_at(x, y)->0.region_count) by {
                    if 0 <= x < wc && 0 <= y < hc {
                        let s = y * wc + x;
                        assert(0 <= s < wc * hc) by (nonlinear_arith)
                            requires
                                0 <= x < wc,
                                0 <= y < hc,
                                s == y * wc + x,
                        ;
                        assert(g5.cluster_storage@[s] is Some ==> same_but_links(&g5.cluster_storage@[s]->0, &g4.cluster_storage@[s]->0));
                    }
                }
            }
            lemma_link_basis(self, &g4);
            assert forall|i: int|
                0 <= i < self.portal_island_map@.len() implies linked(self, i) || (#[trigger] self.portal_island_map@[i]) is None by {
                assert(map_entry(&g4, i, g4.portals@.len() as int, g5.portal_island_map@[i], map_before(&g4, i)));
                if !linked(&g4, i) {
                    assert(g4.portal_island_map@ == g0.portal_island_map@);
                    assert(g0.portal_island_map@.len() == 0);
                }
            }
        }
    }
}

proof fn lemma_portal_budget(n: int)
    requires
        n >= 1,
        n * MAX_ISLANDS * (n * MAX_ISLANDS) <= usize::MAX,
    ensures
        2 * CLUSTER_SIZE * n + 2 * CLUSTER_SIZE * n + 4 * n <= usize::MAX,
{
    assert(2 * CLUSTER_SIZE * n + 2 * CLUSTER_SIZE * n + 4 * n <= n * MAX_ISLANDS * (n * MAX_ISLANDS)) by (nonlinear_arith)
        requires
            n >= 1,
    ;
}

/// Every stored cluster of a graph whose clusters were all built is ready
/// for island links.
proof fn lemma_stored_ready(g: &HierarchicalGraph, ff: &FlowField)
    requires
        g.arena_wf(),
        g.clusters_wf(),
        clusters_built_before(g, ff, g.cluster_rows as int, 0),
    ensures
        forall|s: int| 0 <= s < g.cluster_storage@.len() && #[trigger] g.cluster_storage@[s] is Some ==> links_ready(&g.cluster_storage@[s]->0),
{
    assert forall|s: int| 0 <= s < g.cluster_storage@.len() && #[trigger] g.cluster_storage@[s] is Some implies links_ready(&g.cluster_storage@[s]->0) by {
        let c = g.cluster_storage@[s]->0;
        let (x, y) = (c.id.0 as int, c.id.1 as int);
        assert(y < g.cluster_rows) by (nonlinear_arith)
            requires
                y * g.cluster_cols + x == s,
                s < g.cluster_cols * g.cluster_rows,
                0 <= x,
                0 <= y,
        ;
        assert(g.cluster_at(x, y) == Some(c));
    }
}

proof fn lemma_routing_ready_after_links(g5: &HierarchicalGraph, g4: &HierarchicalGraph, ff: &FlowField, g0: &HierarchicalGraph)
    requires
        g5.wf(),
        g4.wf(),
        g5.portals@ == g4.portals@,
        g5.portal_connections@ == g4.portal_connections@,
        g5.cluster_cols == g4.cluster_cols,
        g5.cluster_rows == g4.cluster_rows,
        g4.cluster_cols == clusters_across(ff.width as int),
        g4.cluster_rows == clusters_across(ff.height as int),
        forall|k: int| 0 <= k < g4.portals@.len() ==> #[trigger] portal_sound(g4, ff, k),
        forall|s: int| 0 <= s < g4.cluster_storage@.len() && #[trigger] g4.cluster_storage@[s] is Some ==> links_ready(&g4.cluster_storage@[s]->0),
        map_linked(g5, g4, g4.portals@.len() as int),
        g4.portal_island_map@ == g0.portal_island_map@,
        map_islands_ok(g0),
    ensures
        routing_ready(g5),
{
    assert forall|i: int| 0 <= i < g5.portals@.len() implies (#[trigger] g5.portals@[i]).cluster.0 < g5.cluster_cols
        && g5.portals@[i].cluster.1 < g5.cluster_rows by {
        assert(portal_sound(g4, ff, i));
    }
    assert forall|i: int| 0 <= i < g5.portal_island_map@.len() implies (#[trigger] g5.portal_island_map@[i] matches Some(ni)
        ==> (ni.0 as int) < MAX_ISLANDS) by {
        assert(map_entry(g4, i, g4.portals@.len() as int, g5.portal_island_map@[i], map_before(g4, i)));
        if exists|d: crate::pathfinding::types::Direction, isl: IslandId| i < g4.portals@.len() && #[trigger] portal_link(g4, i, d, isl) && g5.portal_island_map@[i] == Some(isl) {
            let (d, isl) = choose|d: crate::pathfinding::types::Direction, isl: IslandId| i < g4.portals@.len() && #[trigger] portal_link(g4, i, d, isl) && g5.portal_island_map@[i] == Some(isl);
            let p = g4.portals@[i];
            let c = g4.cluster_at(p.cluster.0 as int, p.cluster.1 as int)->0;
            let s = p.cluster.1 * g4.cluster_cols + p.cluster.0;
            assert(s < g4.cluster_cols * g4.cluster_rows) by (nonlinear_arith)
                requires
                    p.cluster.0 < g4.cluster_cols,
                    p.cluster.1 < g4.cluster_rows,
                    s == p.cluster.1 * g4.cluster_cols + p.cluster.0,
            ;
            assert(g4.cluster_storage@[s] is Some);
            assert(c == g4.cluster_storage@[s]->0);
            lemma_island_from_spec(&c, crate::pathfinding::region_decomposition::local_of_cell(p.node.x as int, p.node.y as int, p.cluster.0 as int, p.cluster.1 as int), isl);
        }
    }
    assert forall|p: int, k: int|
        0 <= p < g5.portal_connections@.len() && 0 <= k < g5.portal_connections@[p]@.len() implies 0
            <= (#[trigger] g5.portal_connections@[p]@[k]).1.bits <= ISLAND_EDGE_BOUND by {
        assert(portal_sound(g4, ff, p));
    }
}

proof fn lemma_built_kept(ff: &FlowField, cx: int, cy: int, c2: &Cluster, c1: &Cluster)
    requires
        cluster_built(ff, cx, cy, c1),
        same_but_links(c2, c1),
    ensures
        cluster_built(ff, cx, cy, c2),
{
    assert forall|i: int, j: int| #[trigger] c2.route_spec(i, j) == c1.route_spec(i, j) by {}
    assert forall|k: int| #[trigger] crate::pathfinding::island_detection::members_of(c2, k) == crate::pathfinding::island_detection::members_of(c1, k) by {}
    assert forall|i: int| #[trigger] island_index(c2, i) == island_index(c1, i) by {}
    assert forall|i: int| #[trigger] crate::pathfinding::island_detection::center_of(c2, i) == crate::pathfinding::island_detection::center_of(c1, i) by {}
    assert forall|i: int| #[trigger] region_listed(c2, i) == region_listed(c1, i) by {}
    assert forall|k: int, a: Seq<bool>| #[trigger] crate::pathfinding::island_detection::island_ok(c2, k, a) == crate::pathfinding::island_detection::island_ok(c1, k, a) by {}
    assert(islands_partition(c2));
    assert(regions_dense(c2));
    assert(links_ready(c2));
    assert(local_routing_spec(c2));
    let regs = choose|regs: Seq<Option<Region>>|
        #[trigger] decomposed_regions(ff, cx, cy, regs, c1.region_count as int) && forall|r: int|
            0 <= r < MAX_REGIONS ==> match (regs[r], #[trigger] c1.regions@[r]) {
                (Some(o), Some(n)) => n.id == o.id && n.bounds == o.bounds && n.vertices@ == o.vertices@ && n.is_dangerous
                    == o.is_dangerous && n.portals@ == partner_portals(regs, r, c1.region_count as int),
                (None, None) => true,
                _ => false,
            };
    assert forall|r: int| 0 <= r < MAX_REGIONS implies match (regs[r], #[trigger] c2.regions@[r]) {
        (Some(o), Some(n)) => n.id == o.id && n.bounds == o.bounds && n.vertices@ == o.vertices@ && n.is_dangerous
            == o.is_dangerous && n.portals@ == partner_portals(regs, r, c2.region_count as int),
        (None, None) => true,
        _ => false,
    } by {
        assert(c2.regions@[r] == c1.regions@[r]);
    }
}

/// The portals of `g`, in order: crossings of the vertical borders
/// (clusters row by row), then of the horizontal borders (clusters column by
/// column), then of the corners; each set holds a pair for every open run or
/// open diagonal and nothing else, each set in scan order, one pair per run
/// or diagonal (see `border_pairs_inv`, `corner_pairs_inv`).
pub open spec fn portal_layout(g: &HierarchicalGraph, ff: &FlowField, wc: int, hc: int) -> bool {
    exists|n1: int, n2: int|
        #![trigger border_pairs_inv(g, ff, wc, hc, true, 0, n1, hc, 0), border_pairs_inv(g, ff, wc, hc, false, n1, n2, wc, 0)]
        0 <= n1 <= n2 <= g.portals@.len() && border_pairs_inv(g, ff, wc, hc, true, 0, n1, hc, 0) && border_pairs_inv(
            g,
            ff,
            wc,
            hc,
            false,
            n1,
            n2,
            wc,
            0,
        ) && corner_pairs_inv(g, ff, wc, hc, n2, g.portals@.len() as int, hc, 0)
}

/// The island links of `g`: each entry of a stored cluster records the last
/// portal of that cluster linked there (see `portal_link`), or nothing; each
/// linked portal's island is in the portal-to-island map.
pub open spec fn links_built(g: &HierarchicalGraph) -> bool {
    &&& forall|cx: usize, cy: usize, d: Direction, isl: IslandId|
        cx < g.cluster_cols && cy < g.cluster_rows && isl.0 < MAX_ISLANDS && g.cluster_at(cx as int, cy as int) is Some ==> link_entry(
            g,
            cx,
            cy,
            d,
            isl,
            g.portals@.len() as int,
            #[trigger] g.cluster_at(cx as int, cy as int)->0.neighbor_spec(isl.0 as int, direction_index(d)),
            None,
        )
    &&& forall|pid: int, d: Direction, isl: IslandId|
        #[trigger] portal_link(g, pid, d, isl) ==> pid < g.portal_island_map@.len() && g.portal_island_map@[pid] == Some(isl)
}

/// `g2` and `g1` have the same portals and the same regions in every stored
/// cluster, so the same portals are linked to the same islands.
pub open spec fn same_link_basis(g2: &HierarchicalGraph, g1: &HierarchicalGraph) -> bool {
    &&& g2.portals@ == g1.portals@
    &&& g2.cluster_cols == g1.cluster_cols
    &&& g2.cluster_rows == g1.cluster_rows
    &&& forall|x: int, y: int|
        #![trigger g2.cluster_at(x, y)]
        (g2.cluster_at(x, y) is Some) == (g1.cluster_at(x, y) is Some) && (g2.cluster_at(x, y) is Some ==> g2.cluster_at(
            x,
            y,
        )->0.regions@ == g1.cluster_at(x, y)->0.regions@ && g2.cluster_at(x, y)->0.region_count == g1.cluster_at(
            x,
            y,
        )->0.region_count)
}

proof fn lemma_link_basis(g2: &HierarchicalGraph, g1: &HierarchicalGraph)
    requires
        same_link_basis(g2, g1),
    ensures
        forall|pid: int, d: Direction, isl: IslandId| #[trigger] portal_link(g2, pid, d, isl) == portal_link(g1, pid, d, isl),
        forall|pid: int| #[trigger] linked(g2, pid) == linked(g1, pid),
{
    assert forall|pid: int, d: Direction, isl: IslandId| #[trigger] portal_link(g2, pid, d, isl) == portal_link(g1, pid, d, isl) by {
        let p = g2.portals@[pid];
        let x = p.cluster.0 as int;
        let y = p.cluster.1 as int;
        assert((g2.cluster_at(x, y) is Some) == (g1.cluster_at(x, y) is Some));
    }
    assert forall|pid: int| #[trigger] linked(g2, pid) == linked(g1, pid) by {
        if linked(g1, pid) {
            let (d, isl) = choose|d: Direction, isl: IslandId| #[trigger] portal_link(g1, pid, d, isl);
            assert(portal_link(g2, pid, d, isl));
        }
        if linked(g2, pid) {
            let (d, isl) = choose|d: Direction, isl: IslandId| #[trigger] portal_link(g2, pid, d, isl);
            assert(portal_link(g1, pid, d, isl));
        }
    }
}

proof fn lemma_links_built(g: &HierarchicalGraph, g5: &HierarchicalGraph, g4: &HierarchicalGraph)
    requires
        clusters_linked(g5, g4, g4.portals@.len() as int),
        map_linked(g5, g4, g4.portals@.len() as int),
        forall|x: int, y: int| #[trigger] g4.cluster_at(x, y) is Some ==> links_clear(&g4.cluster_at(x, y)->0),
        g5.portals@ == g4.portals@,
        g5.cluster_cols == g4.cluster_cols,
        g5.cluster_rows == g4.cluster_rows,
        g.portals@ == g5.portals@,
        g.cluster_cols == g5.cluster_cols,
        g.cluster_rows == g5.cluster_rows,
        g.cluster_storage@ == g5.cluster_storage@,
        g.portal_island_map@ == g5.portal_island_map@,
        g4.cluster_storage@.len() == g4.cluster_cols * g4.cluster_rows,
    ensures
        links_built(g),
{
    assert forall|x: int, y: int| #![trigger g.cluster_at(x, y)]
        (g.cluster_at(x, y) is Some) == (g4.cluster_at(x, y) is Some) && (g.cluster_at(x, y) is Some ==> g.cluster_at(x, y)->0.regions@
            == g4.cluster_at(x, y)->0.regions@ && g.cluster_at(x, y)->0.region_count == g4.cluster_at(x, y)->0.region_count) by {
        if 0 <= x < g.cluster_cols && 0 <= y < g.cluster_rows {
            let s = y * g.cluster_cols + x;
            assert(0 <= s < g.cluster_cols * g.cluster_rows) by (nonlinear_arith)
                requires
                    0 <= x < g.cluster_cols,
                    0 <= y < g.cluster_rows,
                    s == y * g.cluster_cols + x,
            ;
            assert(g5.cluster_storage@[s] is Some ==> same_but_links(&g5.cluster_storage@[s]->0, &g4.cluster_storage@[s]->0));
        }
    }
    assert(same_link_basis(g, g4));
    lemma_link_basis(g, g4);
    let end = g4.portals@.len() as int;
    assert forall|cx: usize, cy: usize, d: Direction, isl: IslandId|
        cx < g.cluster_cols && cy < g.cluster_rows && isl.0 < MAX_ISLANDS && g.cluster_at(cx as int, cy as int) is Some implies link_entry(
            g,
            cx,
            cy,
            d,
            isl,
            g.portals@.len() as int,
            #[trigger] g.cluster_at(cx as int, cy as int)->0.neighbor_spec(isl.0 as int, direction_index(d)),
            None,
        ) by {
        let e = g.cluster_at(cx as int, cy as int)->0.neighbor_spec(isl.0 as int, direction_index(d));
        assert(g5.cluster_at(cx as int, cy as int)->0.neighbor_spec(isl.0 as int, direction_index(d)) == e);
        let b = g4.cluster_at(cx as int, cy as int)->0.neighbor_spec(isl.0 as int, direction_index(d));
        assert(links_clear(&g4.cluster_at(cx as int, cy as int)->0));
        assert(b is None);
        assert(link_entry(g4, cx, cy, d, isl, end, e, b));
        if exists|q: int| #[trigger] last_link(g4, cx, cy, d, isl, end, q) && e == Some(q as usize) {
            let q = choose|q: int| #[trigger] last_link(g4, cx, cy, d, isl, end, q) && e == Some(q as usize);
            assert(last_link(g, cx, cy, d, isl, end, q));
        } else {
            assert(no_link(g, cx, cy, d, isl, end));
        }
    }
    assert forall|pid: int, d: Direction, isl: IslandId|
        #[trigger] portal_link(g, pid, d, isl) implies pid < g.portal_island_map@.len() && g.portal_island_map@[pid] == Some(isl) by {
        assert(portal_link(g4, pid, d, isl));
        assert(linked(g4, pid));
        assert(map_entry(g4, pid, end, g5.portal_island_map@[pid], map_before(g4, pid)));
        if exists|d2: Direction, isl2: IslandId| pid < end && #[trigger] portal_link(g4, pid, d2, isl2) && g5.portal_island_map@[pid] == Some(isl2) {
            let (d2, isl2) = choose|d2: Direction, isl2: IslandId| pid < end && #[trigger] portal_link(g4, pid, d2, isl2) && g5.portal_island_map@[pid] == Some(isl2);
            let p = g4.portals@[pid];
            let c = g4.cluster_at(p.cluster.0 as int, p.cluster.1 as int)->0;
            crate::pathfinding::island_links::lemma_portal_island_unique(
                c.regions@,
                c.region_count as int,
                crate::pathfinding::region_decomposition::local_of_cell(p.node.x as int, p.node.y as int, p.cluster.0 as int, p.cluster.1 as int),
                Some(isl),
                Some(isl2),
            );
        }
    }
}


impl HierarchicalGraph {
    /// Builds the graph from `flow_field` by regions, as
    /// `build_graph_with_regions_sync` does; the second argument is ignored.
    pub fn build_graph(&mut self, flow_field: &FlowField, _use_legacy: bool)
        requires
            old(self).arena_wf(),
            map_islands_ok(old(self)),
            flow_field.wf(),
            flow_field.geometry_ok(),
            flow_field.centres_in_range(),
            flow_field.width + 0x2_0000 <= usize::MAX,
            flow_field.height + 0x2_0000 <= usize::MAX,
            grid_fits(flow_field),
        ensures
            graph_built_from(old(self), final(self), flow_field),
    {
        self.build_graph_with_regions_sync(flow_field);
    }
}

} // verus!
