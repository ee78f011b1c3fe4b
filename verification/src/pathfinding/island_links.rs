//! Linking the islands of each cluster to the portals they reach: every
//! portal on a side or corner of its cluster is attached to the island of the
//! region holding it, or of the nearest region.
use vstd::prelude::*;
use vstd::arithmetic::div_mod::lemma_fundamental_div_mod_converse;
use crate::fixed::{FixedNum, FixedVec2, COORD_LIMIT, ONE_BITS, HALF_BITS, fixed_mul_spec};
use crate::flow_field::FlowField;
use crate::pathfinding::types::{Node, Portal, Direction, IslandId, RegionId, Region, MAX_REGIONS, MAX_ISLANDS, CLUSTER_SIZE, mid_bits};
use crate::pathfinding::cluster::Cluster;
use crate::pathfinding::graph::{HierarchicalGraph, take_slot};
use crate::pathfinding::types::direction_index;
use crate::pathfinding::region_decomposition::{get_region_id, world_to_cluster_local, local_of_cell, local_center_bits, region_lookup_spec, region_holds, corners_in_range};
use crate::pathfinding::island_detection::{regions_dense, island_index, FAR_SQUARED_BITS};

verus! {

/// Side or corner of cluster `c` on which cell `n` lies, corners first.
pub open spec fn direction_of(n: Node, c: (usize, usize)) -> Option<Direction> {
    let x0 = c.0 * CLUSTER_SIZE;
    let y0 = c.1 * CLUSTER_SIZE;
    let x1 = x0 + CLUSTER_SIZE - 1;
    let y1 = y0 + CLUSTER_SIZE - 1;
    if n.x == x1 && n.y == y1 {
        Some(Direction::NorthEast)
    } else if n.x == x0 && n.y == y1 {
        Some(Direction::NorthWest)
    } else if n.x == x1 && n.y == y0 {
        Some(Direction::SouthEast)
    } else if n.x == x0 && n.y == y0 {
        Some(Direction::SouthWest)
    } else if n.y == y1 {
        Some(Direction::North)
    } else if n.y == y0 {
        Some(Direction::South)
    } else if n.x == x1 {
        Some(Direction::East)
    } else if n.x == x0 {
        Some(Direction::West)
    } else {
        None
    }
}

/// Side or corner of cluster `c` on which cell `n` lies (see `direction_of`).
pub fn portal_direction(n: Node, c: (usize, usize)) -> (r: Option<Direction>)
    requires
        c.0 * CLUSTER_SIZE + CLUSTER_SIZE <= usize::MAX,
        c.1 * CLUSTER_SIZE + CLUSTER_SIZE <= usize::MAX,
    ensures
        r == direction_of(n, c),
{
    let x0 = c.0 * CLUSTER_SIZE;
    let y0 = c.1 * CLUSTER_SIZE;
    let x1 = x0 + CLUSTER_SIZE - 1;
    let y1 = y0 + CLUSTER_SIZE - 1;
    if n.x == x1 && n.y == y1 {
        Some(Direction::NorthEast)
    } else if n.x == x0 && n.y == y1 {
        Some(Direction::NorthWest)
    } else if n.x == x1 && n.y == y0 {
        Some(Direction::SouthEast)
    } else if n.x == x0 && n.y == y0 {
        Some(Direction::SouthWest)
    } else if n.y == y1 {
        Some(Direction::North)
    } else if n.y == y0 {
        Some(Direction::South)
    } else if n.x == x1 {
        Some(Direction::East)
    } else if n.x == x0 {
        Some(Direction::West)
    } else {
        None
    }
}

/// Centre of region `j` of a region table, each coordinate rounded down.
pub open spec fn centre_in(regions: Seq<Option<Region>>, j: int) -> FixedVec2 {
    let b = regions[j]->0.bounds;
    FixedVec2 {
        x: FixedNum { bits: mid_bits(b.min.x.bits as int, b.max.x.bits as int) as i64 },
        y: FixedNum { bits: mid_bits(b.min.y.bits as int, b.max.y.bits as int) as i64 },
    }
}

/// Squared distance from `p` to the centre of region `j`, each product
/// rounded down as fixed-point products are.
pub open spec fn region_dist(regions: Seq<Option<Region>>, p: FixedVec2, j: int) -> int {
    let q = centre_in(regions, j);
    fixed_mul_spec(q.x.bits - p.x.bits, q.x.bits - p.x.bits) + fixed_mul_spec(q.y.bits - p.y.bits, q.y.bits - p.y.bits)
}

/// `r` is the island of the region, among the first `count`, whose centre is
/// strictly nearest `p` (the first one on ties), when that distance is below
/// `FAR_SQUARED_BITS`; `None` when no centre is that near.
pub open spec fn nearest_region_island(regions: Seq<Option<Region>>, count: int, p: FixedVec2, r: Option<IslandId>) -> bool {
    match r {
        None => forall|j: int| 0 <= j < count ==> #[trigger] region_dist(regions, p, j) >= FAR_SQUARED_BITS,
        Some(isl) => exists|j0: int|
            #![trigger regions[j0]]
            0 <= j0 < count && region_dist(regions, p, j0) < FAR_SQUARED_BITS && isl == regions[j0]->0.island
                && (forall|j: int| 0 <= j < j0 ==> #[trigger] region_dist(regions, p, j) > region_dist(regions, p, j0))
                && (forall|j: int| j0 < j < count ==> #[trigger] region_dist(regions, p, j) >= region_dist(regions, p, j0)),
    }
}

/// `r` is the island that reaches point `p` of a cluster with the given
/// regions: that of the first region holding `p`, or, when none does, that
/// of the nearest region (see `nearest_region_island`).
pub open spec fn portal_island_spec(regions: Seq<Option<Region>>, count: int, p: FixedVec2, r: Option<IslandId>) -> bool {
    ||| exists|rid: RegionId|
        #[trigger] region_lookup_spec(regions, count, p, Some(rid)) && r == (match regions[rid.0 as int] {
            Some(reg) => Some(reg.island),
            None => None,
        })
    ||| region_lookup_spec(regions, count, p, None) && nearest_region_island(regions, count, p, r)
}

/// A cluster whose regions can be searched: dense, with corners in range and
/// islands within the island table.
pub open spec fn links_ready(c: &Cluster) -> bool {
    &&& regions_dense(c)
    &&& forall|i: int| 0 <= i < c.region_count ==> corners_in_range((#[trigger] c.regions@[i])->0.vertices@)
    &&& forall|i: int| 0 <= i < c.region_count ==> #[trigger] island_index(c, i) < MAX_ISLANDS
}

/// There is at most one island that reaches a point.
pub proof fn lemma_portal_island_unique(regions: Seq<Option<Region>>, count: int, p: FixedVec2, r1: Option<IslandId>, r2: Option<IslandId>)
    requires
        portal_island_spec(regions, count, p, r1),
        portal_island_spec(regions, count, p, r2),
    ensures
        r1 == r2,
{
    if exists|rid: RegionId| #[trigger] region_lookup_spec(regions, count, p, Some(rid)) && r1 == (match regions[rid.0 as int] {
        Some(reg) => Some(reg.island),
        None => None,
    }) {
        let rid1 = choose|rid: RegionId| #[trigger] region_lookup_spec(regions, count, p, Some(rid)) && r1 == (match regions[rid.0 as int] {
            Some(reg) => Some(reg.island),
            None => None,
        });
        let i1 = choose|i: int|
            0 <= i < count && #[trigger] regions[i] is Some && region_holds(regions[i]->0, p) && regions[i]->0.id == rid1
                && forall|j: int| 0 <= j < i && regions[j] is Some ==> !region_holds(#[trigger] regions[j]->0, p);
        if exists|rid: RegionId| #[trigger] region_lookup_spec(regions, count, p, Some(rid)) && r2 == (match regions[rid.0 as int] {
            Some(reg) => Some(reg.island),
            None => None,
        }) {
            let rid2 = choose|rid: RegionId| #[trigger] region_lookup_spec(regions, count, p, Some(rid)) && r2 == (match regions[rid.0 as int] {
                Some(reg) => Some(reg.island),
                None => None,
            });
            let i2 = choose|i: int|
                0 <= i < count && #[trigger] regions[i] is Some && region_holds(regions[i]->0, p) && regions[i]->0.id == rid2
                    && forall|j: int| 0 <= j < i && regions[j] is Some ==> !region_holds(#[trigger] regions[j]->0, p);
            if i1 < i2 {
                assert(!region_holds(regions[i1]->0, p));
            } else if i2 < i1 {
                assert(!region_holds(regions[i2]->0, p));
            }
        } else {
            assert(region_lookup_spec(regions, count, p, None));
            assert(!region_holds(regions[i1]->0, p));
        }
    } else {
        assert(region_lookup_spec(regions, count, p, None));
        if exists|rid: RegionId| #[trigger] region_lookup_spec(regions, count, p, Some(rid)) && r2 == (match regions[rid.0 as int] {
            Some(reg) => Some(reg.island),
            None => None,
        }) {
            let rid2 = choose|rid: RegionId| #[trigger] region_lookup_spec(regions, count, p, Some(rid)) && r2 == (match regions[rid.0 as int] {
                Some(reg) => Some(reg.island),
                None => None,
            });
            let i2 = choose|i: int|
                0 <= i < count && #[trigger] regions[i] is Some && region_holds(regions[i]->0, p) && regions[i]->0.id == rid2
                    && forall|j: int| 0 <= j < i && regions[j] is Some ==> !region_holds(#[trigger] regions[j]->0, p);
            assert(!region_holds(regions[i2]->0, p));
        } else {
            match (r1, r2) {
                (Some(a), Some(b)) => {
                    let j1 = choose|j0: int|
                        #![trigger regions[j0]]
                        0 <= j0 < count && region_dist(regions, p, j0) < FAR_SQUARED_BITS && a == regions[j0]->0.island
                            && (forall|j: int| 0 <= j < j0 ==> #[trigger] region_dist(regions, p, j) > region_dist(regions, p, j0))
                            && (forall|j: int| j0 < j < count ==> #[trigger] region_dist(regions, p, j) >= region_dist(regions, p, j0));
                    let j2 = choose|j0: int|
                        #![trigger regions[j0]]
                        0 <= j0 < count && region_dist(regions, p, j0) < FAR_SQUARED_BITS && b == regions[j0]->0.island
                            && (forall|j: int| 0 <= j < j0 ==> #[trigger] region_dist(regions, p, j) > region_dist(regions, p, j0))
                            && (forall|j: int| j0 < j < count ==> #[trigger] region_dist(regions, p, j) >= region_dist(regions, p, j0));
                    if j1 < j2 {
                        assert(region_dist(regions, p, j1) > region_dist(regions, p, j2));
                        assert(region_dist(regions, p, j2) >= region_dist(regions, p, j1));
                    } else if j2 < j1 {
                        assert(region_dist(regions, p, j2) > region_dist(regions, p, j1));
                        assert(region_dist(regions, p, j1) >= region_dist(regions, p, j2));
                    }
                },
                (Some(a), None) => {
                    let j1 = choose|j0: int|
                        #![trigger regions[j0]]
                        0 <= j0 < count && region_dist(regions, p, j0) < FAR_SQUARED_BITS && a == regions[j0]->0.island
                            && (forall|j: int| 0 <= j < j0 ==> #[trigger] region_dist(regions, p, j) > region_dist(regions, p, j0))
                            && (forall|j: int| j0 < j < count ==> #[trigger] region_dist(regions, p, j) >= region_dist(regions, p, j0));
                    assert(region_dist(regions, p, j1) >= FAR_SQUARED_BITS);
                },
                (None, Some(b)) => {
                    let j2 = choose|j0: int|
                        #![trigger regions[j0]]
                        0 <= j0 < count && region_dist(regions, p, j0) < FAR_SQUARED_BITS && b == regions[j0]->0.island
                            && (forall|j: int| 0 <= j < j0 ==> #[trigger] region_dist(regions, p, j) > region_dist(regions, p, j0))
                            && (forall|j: int| j0 < j < count ==> #[trigger] region_dist(regions, p, j) >= region_dist(regions, p, j0));
                    assert(region_dist(regions, p, j2) >= FAR_SQUARED_BITS);
                },
                (None, None) => {},
            }
        }
    }
}

/// The island of a cluster that reaches point `p` (cluster-local): that of
/// the first region holding it, else that of the nearest region centre
/// (see `portal_island_spec`).
pub fn portal_island(cluster: &Cluster, p: FixedVec2) -> (r: Option<IslandId>)
    requires
        links_ready(cluster),
        p.in_range(),
    ensures
        portal_island_spec(cluster.regions@, cluster.region_count as int, p, r),
        r matches Some(i) ==> i.0 < MAX_ISLANDS,
{
    let count = cluster.region_count;
    match get_region_id(&cluster.regions, count, p) {
        Some(rid) => {
            proof {
                let i = choose|i: int|
                    0 <= i < count && #[trigger] cluster.regions@[i] is Some && region_holds(cluster.regions@[i]->0, p)
                        && cluster.regions@[i]->0.id == rid
                        && forall|j: int| 0 <= j < i && cluster.regions@[j] is Some ==> !region_holds(#[trigger] cluster.regions@[j]->0, p);
                assert(rid.0 == i);
                assert(island_index(cluster, i) < MAX_ISLANDS);
            }
            match &cluster.regions[rid.0 as usize] {
                Some(reg) => Some(reg.island),
                None => None,
            }
        },
        None => {
            let mut nearest: Option<IslandId> = None;
            let mut best: i64 = FAR_SQUARED_BITS;
            let ghost mut bj: int = -1;
            let mut j: usize = 0;
            while j < count
                invariant
                    links_ready(cluster),
                    count == cluster.region_count,
                    p.in_range(),
                    j <= count,
                    -1 <= bj < j,
                    bj == -1 ==> best == FAR_SQUARED_BITS && nearest is None,
                    bj >= 0 ==> {
                        &&& best == region_dist(cluster.regions@, p, bj)
                        &&& best < FAR_SQUARED_BITS
                        &&& nearest == Some(cluster.regions@[bj]->0.island)
                        &&& forall|k: int| 0 <= k < bj ==> #[trigger] region_dist(cluster.regions@, p, k) > best
                    },
                    forall|k: int| 0 <= k < j ==> #[trigger] region_dist(cluster.regions@, p, k) >= best,
                    nearest matches Some(i) ==> i.0 < MAX_ISLANDS,
                decreases count - j,
            {
                proof {
                    assert(cluster.regions@[j as int] is Some);
                }
                match &cluster.regions[j] {
                    Some(reg) => {
                        let c = reg.bounds.center();
                        let d = c.sub(p).length_squared();
                        if d.bits < best {
                            proof {
                                assert(island_index(cluster, j as int) < MAX_ISLANDS);
                                bj = j as int;
                            }
                            best = d.bits;
                            nearest = Some(reg.island);
                        }
                    },
                    None => {},
                }
                j = j + 1;
            }
            proof {
                if bj >= 0 {
                    assert(cluster.regions@[bj] is Some);
                }
            }
            nearest
        },
    }
}

/// A portal's cell lies on the grid and inside the portal's own cluster.
pub open spec fn portal_placed(ff: &FlowField, p: Portal) -> bool {
    &&& p.node.x < ff.width
    &&& p.node.y < ff.height
    &&& p.cluster.0 * CLUSTER_SIZE <= p.node.x < p.cluster.0 * CLUSTER_SIZE + CLUSTER_SIZE
    &&& p.cluster.1 * CLUSTER_SIZE <= p.node.y < p.cluster.1 * CLUSTER_SIZE + CLUSTER_SIZE
}

/// Every portal of `g` is placed (see `portal_placed`).
pub open spec fn portals_placed(g: &HierarchicalGraph, ff: &FlowField) -> bool {
    forall|i: int| 0 <= i < g.portals@.len() ==> #[trigger] portal_placed(ff, g.portals@[i])
}

/// The centre of a cell maps back to that cell.
pub proof fn lemma_cell_centre_round_trip(ff: &FlowField, x: int, y: int)
    requires
        ff.geometry_ok(),
        ff.centres_in_range(),
        0 <= x < ff.width,
        0 <= y < ff.height,
    ensures
        ff.cell_center_spec(x, y).in_range(),
        ff.world_to_grid_spec(ff.cell_center_spec(x, y)) == Some((x as usize, y as usize)),
{
    let cs = ff.cell_size.bits as int;
    assert(0 <= x * cs && x * cs + cs / 2 < ff.width * cs) by (nonlinear_arith)
        requires
            0 <= x < ff.width,
            cs > 0,
    ;
    assert(0 <= y * cs && y * cs + cs / 2 < ff.height * cs) by (nonlinear_arith)
        requires
            0 <= y < ff.height,
            cs > 0,
    ;
    lemma_fundamental_div_mod_converse(x * cs + cs / 2, cs, x, cs / 2);
    lemma_fundamental_div_mod_converse(y * cs + cs / 2, cs, y, cs / 2);
}

/// Portal `pid` of `g` lies on side `d` of its cluster, which is stored, and
/// island `isl` of that cluster reaches the portal's cell.
pub open spec fn portal_link(g: &HierarchicalGraph, pid: int, d: Direction, isl: IslandId) -> bool {
    let p = g.portals@[pid];
    let c = g.cluster_at(p.cluster.0 as int, p.cluster.1 as int);
    &&& 0 <= pid < g.portals@.len()
    &&& c is Some
    &&& direction_of(p.node, p.cluster) == Some(d)
    &&& portal_island_spec(
        c->0.regions@,
        c->0.region_count as int,
        local_of_cell(p.node.x as int, p.node.y as int, p.cluster.0 as int, p.cluster.1 as int),
        Some(isl),
    )
}

/// Portal `pid` of `g` is linked to some island.
pub open spec fn linked(g: &HierarchicalGraph, pid: int) -> bool {
    exists|d: Direction, isl: IslandId| #[trigger] portal_link(g, pid, d, isl)
}

/// Portal `pid` is the last of the first `end` portals of cluster `(cx, cy)`
/// that island `isl` reaches on side `d`.
pub open spec fn last_link(g: &HierarchicalGraph, cx: usize, cy: usize, d: Direction, isl: IslandId, end: int, pid: int) -> bool {
    &&& pid < end
    &&& portal_link(g, pid, d, isl)
    &&& g.portals@[pid].cluster == (cx, cy)
    &&& forall|q: int| pid < q < end && g.portals@[q].cluster == (cx, cy) ==> !#[trigger] portal_link(g, q, d, isl)
}

/// None of the first `end` portals of cluster `(cx, cy)` is reached by island
/// `isl` on side `d`.
pub open spec fn no_link(g: &HierarchicalGraph, cx: usize, cy: usize, d: Direction, isl: IslandId, end: int) -> bool {
    forall|q: int| 0 <= q < end && g.portals@[q].cluster == (cx, cy) ==> !#[trigger] portal_link(g, q, d, isl)
}

/// Entry `e` for island `isl` and side `d` of cluster `(cx, cy)` records the
/// last of the first `end` portals linked there, or still holds `before`
/// where there is none.
pub open spec fn link_entry(g: &HierarchicalGraph, cx: usize, cy: usize, d: Direction, isl: IslandId, end: int, e: Option<usize>, before: Option<usize>) -> bool {
    ||| exists|q: int| #[trigger] last_link(g, cx, cy, d, isl, end, q) && e == Some(q as usize)
    ||| no_link(g, cx, cy, d, isl, end) && e == before
}

/// Entry `e` of the portal-to-island map for portal `i`, once the first
/// `end` portals of `g` were linked: the island of a linked portal, else
/// what it held (`before`).
pub open spec fn map_entry(g: &HierarchicalGraph, i: int, end: int, e: Option<IslandId>, before: Option<IslandId>) -> bool {
    ||| exists|d: Direction, isl: IslandId| i < end && #[trigger] portal_link(g, i, d, isl) && e == Some(isl)
    ||| (i >= end || !linked(g, i)) && e == before
}

/// Clusters `a` and `b` differ at most in their portal links.
pub open spec fn same_but_links(a: &Cluster, b: &Cluster) -> bool {
    &&& a.id == b.id
    &&& a.regions@ == b.regions@
    &&& a.region_count == b.region_count
    &&& a.islands@ == b.islands@
    &&& a.island_count == b.island_count
    &&& a.local_routing@ == b.local_routing@
    &&& a.neighbor_connectivity@.len() == b.neighbor_connectivity@.len()
}

proof fn lemma_ready_kept(a: &Cluster, b: &Cluster)
    requires
        same_but_links(a, b),
        links_ready(b),
    ensures
        links_ready(a),
{
    assert forall|i: int, j: int| 0 <= i < MAX_REGIONS && 0 <= j < MAX_REGIONS implies (#[trigger] a.route_spec(i, j) == crate::pathfinding::types::NO_PATH
        || a.route_spec(i, j) < a.region_count) by {
        assert(a.route_spec(i, j) == b.route_spec(i, j));
    }
    assert forall|i: int| 0 <= i < a.region_count implies #[trigger] island_index(a, i) < MAX_ISLANDS by {
        assert(island_index(a, i) == island_index(b, i));
    }
}

/// Every stored cluster of `g` differs from that of `old` at most in its
/// portal links, and each link entry is as `link_entry` gives after the
/// first `end` portals.
pub open spec fn clusters_linked(g: &HierarchicalGraph, old: &HierarchicalGraph, end: int) -> bool {
    &&& g.cluster_storage@.len() == old.cluster_storage@.len()
    &&& forall|s: int| 0 <= s < g.cluster_storage@.len() ==> {
        &&& (#[trigger] g.cluster_storage@[s] is Some) == old.cluster_storage@[s] is Some
        &&& g.cluster_storage@[s] is Some ==> same_but_links(&g.cluster_storage@[s]->0, &old.cluster_storage@[s]->0)
    }
    &&& forall|cx: usize, cy: usize, d: Direction, isl: IslandId|
        cx < g.cluster_cols && cy < g.cluster_rows && isl.0 < MAX_ISLANDS && g.cluster_at(cx as int, cy as int) is Some ==> link_entry(
            old,
            cx,
            cy,
            d,
            isl,
            end,
            #[trigger] g.cluster_at(cx as int, cy as int)->0.neighbor_spec(isl.0 as int, direction_index(d)),
            old.cluster_at(cx as int, cy as int)->0.neighbor_spec(isl.0 as int, direction_index(d)),
        )
}

/// The portal-to-island map of `g` is that of `old` with the first `end`
/// portals linked (see `map_entry`), grown only as far as the last linked portal.
pub open spec fn map_linked(g: &HierarchicalGraph, old: &HierarchicalGraph, end: int) -> bool {
    &&& g.portal_island_map@.len() >= old.portal_island_map@.len()
    &&& g.portal_island_map@.len() > old.portal_island_map@.len() ==> g.portal_island_map@.len() - 1 < end && linked(
        old,
        g.portal_island_map@.len() - 1,
    )
    &&& forall|i: int| 0 <= i < end && linked(old, i) ==> i < g.portal_island_map@.len()
    &&& forall|i: int|
        0 <= i < g.portal_island_map@.len() ==> #[trigger] map_entry(
            old,
            i,
            end,
            g.portal_island_map@[i],
            map_before(old, i),
        )
}

/// Entry `i` of the portal-to-island map of `g`, `None` past its end.
pub open spec fn map_before(g: &HierarchicalGraph, i: int) -> Option<IslandId> {
    if i < g.portal_island_map@.len() {
        g.portal_island_map@[i]
    } else {
        None
    }
}

proof fn lemma_unique_link(g: &HierarchicalGraph, pid: int, d: Direction, isl: IslandId, d2: Direction, isl2: IslandId)
    requires
        portal_link(g, pid, d, isl),
        portal_link(g, pid, d2, isl2),
    ensures
        d == d2,
        isl == isl2,
{
    let p = g.portals@[pid];
    let c = g.cluster_at(p.cluster.0 as int, p.cluster.1 as int)->0;
    lemma_portal_island_unique(
        c.regions@,
        c.region_count as int,
        local_of_cell(p.node.x as int, p.node.y as int, p.cluster.0 as int, p.cluster.1 as int),
        Some(isl),
        Some(isl2),
    );
}

proof fn lemma_step_unlinked(g: &HierarchicalGraph, old: &HierarchicalGraph, j: int)
    requires
        clusters_linked(g, old, j),
        map_linked(g, old, j),
        forall|d: Direction, isl: IslandId| !#[trigger] portal_link(old, j, d, isl),
    ensures
        clusters_linked(g, old, j + 1),
        map_linked(g, old, j + 1),
{
    assert(!linked(old, j));
    assert forall|cx: usize, cy: usize, d: Direction, isl: IslandId|
        cx < g.cluster_cols && cy < g.cluster_rows && isl.0 < MAX_ISLANDS && g.cluster_at(cx as int, cy as int) is Some implies link_entry(
            old,
            cx,
            cy,
            d,
            isl,
            j + 1,
            #[trigger] g.cluster_at(cx as int, cy as int)->0.neighbor_spec(isl.0 as int, direction_index(d)),
            old.cluster_at(cx as int, cy as int)->0.neighbor_spec(isl.0 as int, direction_index(d)),
        ) by {
        let e = g.cluster_at(cx as int, cy as int)->0.neighbor_spec(isl.0 as int, direction_index(d));
        let b = old.cluster_at(cx as int, cy as int)->0.neighbor_spec(isl.0 as int, direction_index(d));
        assert(link_entry(old, cx, cy, d, isl, j, e, b));
        if exists|q: int| #[trigger] last_link(old, cx, cy, d, isl, j, q) && e == Some(q as usize) {
            let q = choose|q: int| #[trigger] last_link(old, cx, cy, d, isl, j, q) && e == Some(q as usize);
            assert(last_link(old, cx, cy, d, isl, j + 1, q));
        } else {
            assert(no_link(old, cx, cy, d, isl, j + 1));
        }
    }
    assert forall|i: int| 0 <= i < g.portal_island_map@.len() implies #[trigger] map_entry(
        old,
        i,
        j + 1,
        g.portal_island_map@[i],
        map_before(old, i),
    ) by {
        assert(map_entry(old, i, j, g.portal_island_map@[i], map_before(old, i)));
        if i == j {
            assert(!linked(old, i));
        }
    }
}

proof fn lemma_step_linked(
    gb: &HierarchicalGraph,
    ga: &HierarchicalGraph,
    old: &HierarchicalGraph,
    j: int,
    d: Direction,
    isl: IslandId,
    idx: int,
    c1: Cluster,
    c2: Cluster,
)
    requires
        clusters_linked(gb, old, j),
        map_linked(gb, old, j),
        portal_link(old, j, d, isl),
        isl.0 < MAX_ISLANDS,
        old.cluster_cols == gb.cluster_cols,
        old.cluster_rows == gb.cluster_rows,
        ga.cluster_cols == gb.cluster_cols,
        ga.cluster_rows == gb.cluster_rows,
        old.cluster_storage@.len() == old.cluster_cols * old.cluster_rows,
        ({
            let (cx, cy) = old.portals@[j].cluster;
            cx < gb.cluster_cols && cy < gb.cluster_rows && idx == cy * gb.cluster_cols + cx
        }),
        0 <= idx < gb.cluster_storage@.len(),
        gb.cluster_storage@[idx] == Some(c1),
        c1.neighbor_connectivity@.len() == MAX_ISLANDS * 8,
        same_but_links(&c2, &c1),
        c2.neighbor_connectivity@ == c1.neighbor_connectivity@.update(isl.0 * 8 + direction_index(d), Some(j as usize)),
        ga.cluster_storage@ == gb.cluster_storage@.update(idx, Some(c2)),
        ga.portal_island_map@.len() == if gb.portal_island_map@.len() > j { gb.portal_island_map@.len() as int } else { j + 1 },
        forall|k: int| 0 <= k < ga.portal_island_map@.len() ==> #[trigger] ga.portal_island_map@[k] == if k == j {
            Some(isl)
        } else if k < gb.portal_island_map@.len() {
            gb.portal_island_map@[k]
        } else {
            None
        },
    ensures
        clusters_linked(ga, old, j + 1),
        map_linked(ga, old, j + 1),
{
    let (cx, cy) = old.portals@[j].cluster;
    let cols = gb.cluster_cols as int;
    assert(linked(old, j));
    assert forall|s: int| 0 <= s < ga.cluster_storage@.len() implies {
        &&& (#[trigger] ga.cluster_storage@[s] is Some) == old.cluster_storage@[s] is Some
        &&& ga.cluster_storage@[s] is Some ==> same_but_links(&ga.cluster_storage@[s]->0, &old.cluster_storage@[s]->0)
    } by {
        if s != idx {
            assert(ga.cluster_storage@[s] == gb.cluster_storage@[s]);
        }
        assert(gb.cluster_storage@[s] is Some ==> same_but_links(&gb.cluster_storage@[s]->0, &old.cluster_storage@[s]->0));
    }
    assert forall|x: usize, y: usize, d2: Direction, isl2: IslandId|
        x < ga.cluster_cols && y < ga.cluster_rows && isl2.0 < MAX_ISLANDS && ga.cluster_at(x as int, y as int) is Some implies link_entry(
            old,
            x,
            y,
            d2,
            isl2,
            j + 1,
            #[trigger] ga.cluster_at(x as int, y as int)->0.neighbor_spec(isl2.0 as int, direction_index(d2)),
            old.cluster_at(x as int, y as int)->0.neighbor_spec(isl2.0 as int, direction_index(d2)),
        ) by {
        let s = y * cols + x;
        assert(0 <= s < cols * gb.cluster_rows) by (nonlinear_arith)
            requires
                0 <= x < cols,
                0 <= y < gb.cluster_rows,
                s == y * cols + x,
        ;
        let e = ga.cluster_at(x as int, y as int)->0.neighbor_spec(isl2.0 as int, direction_index(d2));
        let b = old.cluster_at(x as int, y as int)->0.neighbor_spec(isl2.0 as int, direction_index(d2));
        let eb = gb.cluster_at(x as int, y as int)->0.neighbor_spec(isl2.0 as int, direction_index(d2));
        assert(gb.cluster_at(x as int, y as int) is Some) by {
            if s != idx {
                assert(ga.cluster_storage@[s] == gb.cluster_storage@[s]);
            }
        }
        assert(link_entry(old, x, y, d2, isl2, j, eb, b));
        let same_cluster = x == cx && y == cy;
        if same_cluster && d2 == d && isl2 == isl {
            assert(e == Some(j as usize));
            assert(last_link(old, x, y, d2, isl2, j + 1, j));
        } else {
            assert(e == eb) by {
                if same_cluster {
                    assert(s == idx);
                    assert(isl2.0 * 8 + direction_index(d2) != isl.0 * 8 + direction_index(d)) by {
                        if isl2.0 * 8 + direction_index(d2) == isl.0 * 8 + direction_index(d) {
                            assert(isl2.0 == isl.0 && direction_index(d2) == direction_index(d));
                            assert(isl2 == isl);
                        }
                    }
                } else {
                    assert(s != idx) by {
                        if s == idx {
                            assert(y * cols + x == cy * cols + cx);
                            assert(y == cy && x == cx) by (nonlinear_arith)
                                requires
                                    y * cols + x == cy * cols + cx,
                                    0 <= x < cols,
                                    0 <= cx < cols,
                                    0 <= y,
                                    0 <= cy,
                            ;
                        }
                    }
                    assert(ga.cluster_storage@[s] == gb.cluster_storage@[s]);
                }
            }
            assert(!portal_link(old, j, d2, isl2) || !same_cluster) by {
                if portal_link(old, j, d2, isl2) {
                    lemma_unique_link(old, j, d, isl, d2, isl2);
                }
            }
            if exists|q: int| #[trigger] last_link(old, x, y, d2, isl2, j, q) && eb == Some(q as usize) {
                let q = choose|q: int| #[trigger] last_link(old, x, y, d2, isl2, j, q) && eb == Some(q as usize);
                assert(last_link(old, x, y, d2, isl2, j + 1, q));
            } else {
                assert(no_link(old, x, y, d2, isl2, j + 1));
            }
        }
    }
    assert forall|k: int| 0 <= k < ga.portal_island_map@.len() implies #[trigger] map_entry(
        old,
        k,
        j + 1,
        ga.portal_island_map@[k],
        map_before(old, k),
    ) by {
        if k == j {
            assert(ga.portal_island_map@[k] == Some(isl));
        } else if k < gb.portal_island_map@.len() {
            assert(map_entry(old, k, j, gb.portal_island_map@[k], map_before(old, k)));
        } else {
            assert(!(k < j && linked(old, k)));
            assert(k >= old.portal_island_map@.len());
        }
    }
}

impl HierarchicalGraph {
    /// Links every island to the portals it reaches: each portal that lies
    /// on a side or corner of its stored cluster is attached to the island
    /// that reaches its cell (see `portal_island_spec`), recorded in the
    /// portal-to-island map and in that island's entry for that side, the
    /// later portal winning where several share one.
    pub(crate) fn populate_island_portal_connectivity(&mut self, flow_field: &FlowField)
        requires
            old(self).wf(),
            forall|s: int| 0 <= s < old(self).cluster_storage@.len() && #[trigger] old(self).cluster_storage@[s] is Some
                ==> links_ready(&old(self).cluster_storage@[s]->0),
            portals_placed(old(self), flow_field),
            flow_field.geometry_ok(),
            flow_field.centres_in_range(),
            flow_field.width + CLUSTER_SIZE < usize::MAX,
            flow_field.height + CLUSTER_SIZE < usize::MAX,
        ensures
            final(self).wf(),
            final(self).portals@ == old(self).portals@,
            final(self).portal_connections@ == old(self).portal_connections@,
            final(self).next_portal_id == old(self).next_portal_id,
            final(self).island_routing_storage@ == old(self).island_routing_storage@,
            final(self).cluster_cols == old(self).cluster_cols,
            final(self).cluster_rows == old(self).cluster_rows,
            final(self).initialized == old(self).initialized,
            final(self).total_island_capacity == old(self).total_island_capacity,
            clusters_linked(final(self), old(self), old(self).portals@.len() as int),
            map_linked(final(self), old(self), old(self).portals@.len() as int),
    {
        let ghost g0 = *self;
        let n = self.portals.len();
        let mut pid: usize = 0;
        while pid < n
            invariant
                g0.wf(),
                forall|s: int| 0 <= s < g0.cluster_storage@.len() && #[trigger] g0.cluster_storage@[s] is Some
                    ==> links_ready(&g0.cluster_storage@[s]->0),
                portals_placed(&g0, flow_field),
                flow_field.geometry_ok(),
                flow_field.centres_in_range(),
                flow_field.width + CLUSTER_SIZE < usize::MAX,
                flow_field.height + CLUSTER_SIZE < usize::MAX,
                n == g0.portals@.len(),
                pid <= n,
                self.portals@ == g0.portals@,
                self.portal_connections@ == g0.portal_connections@,
                self.next_portal_id == g0.next_portal_id,
                self.island_routing_storage@ == g0.island_routing_storage@,
                self.cluster_cols == g0.cluster_cols,
                self.cluster_rows == g0.cluster_rows,
                self.initialized == g0.initialized,
                self.total_island_capacity == g0.total_island_capacity,
                clusters_linked(self, &g0, pid as int),
                map_linked(self, &g0, pid as int),
            decreases n - pid,
        {
            let p = self.portals[pid];
            let (cx, cy) = p.cluster;
            proof {
                assert(portal_placed(flow_field, g0.portals@[pid as int]));
            }
            let mut done = false;
            if cx < self.cluster_cols && cy < self.cluster_rows {
                proof {
                    assert(cy * self.cluster_cols + cx < self.cluster_cols * self.cluster_rows) by (nonlinear_arith)
                        requires
                            cx < self.cluster_cols,
                            cy < self.cluster_rows,
                    ;
                }
                let idx = cy * self.cluster_cols + cx;
                let stored = match &self.cluster_storage[idx] {
                    Some(_) => true,
                    None => false,
                };
                if stored {
                    match portal_direction(p.node, p.cluster) {
                        Some(d) => {
                            proof {
                                lemma_cell_centre_round_trip(flow_field, p.node.x as int, p.node.y as int);
                                assert(cx * CLUSTER_SIZE <= 0x20_0000_0000) by (nonlinear_arith)
                                    requires
                                        cx * CLUSTER_SIZE <= p.node.x < flow_field.width,
                                        flow_field.width * flow_field.cell_size.bits <= COORD_LIMIT,
                                        flow_field.cell_size.bits > 0,
                                ;
                                assert(cy * CLUSTER_SIZE <= 0x20_0000_0000) by (nonlinear_arith)
                                    requires
                                        cy * CLUSTER_SIZE <= p.node.y < flow_field.height,
                                        flow_field.height * flow_field.cell_size.bits <= COORD_LIMIT,
                                        flow_field.cell_size.bits > 0,
                                ;
                            }
                            let world = flow_field.grid_to_world(p.node.x, p.node.y);
                            let local = world_to_cluster_local(world, p.cluster, flow_field);
                            match local {
                                Some(lp) => {
                                    let ghost c0 = g0.cluster_storage@[idx as int]->0;
                                    proof {
                                        assert(lp == local_of_cell(p.node.x as int, p.node.y as int, cx as int, cy as int));
                                        assert(g0.cluster_storage@[idx as int] is Some);
                                        lemma_ready_kept(&self.cluster_storage@[idx as int]->0, &c0);
                                    }
                                    let isl = match &self.cluster_storage[idx] {
                                        Some(c) => portal_island(c, lp),
                                        None => None,
                                    };
                                    match isl {
                                        Some(i) => {
                                            let ghost gb = *self;
                                            proof {
                                                assert(portal_link(&g0, pid as int, d, i));
                                            }
                                            while self.portal_island_map.len() <= pid
                                                invariant
                                                    self.portal_island_map@.len() >= gb.portal_island_map@.len(),
                                                    self.portal_island_map@.len() > gb.portal_island_map@.len() ==> self.portal_island_map@.len() <= pid + 1,
                                                    forall|k: int| 0 <= k < self.portal_island_map@.len() ==> #[trigger] self.portal_island_map@[k] == if k < gb.portal_island_map@.len() {
                                                        gb.portal_island_map@[k]
                                                    } else {
                                                        None
                                                    },
                                                    self.cluster_storage@ == gb.cluster_storage@,
                                                    self.portals@ == gb.portals@,
                                                    self.portal_connections@ == gb.portal_connections@,
                                                    self.next_portal_id == gb.next_portal_id,
                                                    self.island_routing_storage@ == gb.island_routing_storage@,
                                                    self.cluster_cols == gb.cluster_cols,
                                                    self.cluster_rows == gb.cluster_rows,
                                                    self.initialized == gb.initialized,
                                                    self.total_island_capacity == gb.total_island_capacity,
                                                decreases pid + 1 - self.portal_island_map@.len(),
                                            {
                                                self.portal_island_map.push(None);
                                            }
                                            self.portal_island_map.set(pid, Some(i));
                                            let slot = take_slot(&mut self.cluster_storage, idx);
                                            match slot {
                                                Some(mut c) => {
                                                    let ghost c1 = c;
                                                    let k = (i.0 as usize) * 8 + d.as_index();
                                                    c.neighbor_connectivity.set(k, Some(pid));
                                                    self.cluster_storage.set(idx, Some(c));
                                                    proof {
                                                        assert(self.cluster_storage@ =~= gb.cluster_storage@.update(idx as int, Some(c)));
                                                        lemma_step_linked(&gb, self, &g0, pid as int, d, i, idx as int, c1, c);
                                                    }
                                                },
                                                None => {},
                                            }
                                            done = true;
                                        },
                                        None => {
                                            proof {
                                                assert forall|d2: Direction, isl2: IslandId| !#[trigger] portal_link(&g0, pid as int, d2, isl2) by {
                                                    if portal_link(&g0, pid as int, d2, isl2) {
                                                        lemma_portal_island_unique(c0.regions@, c0.region_count as int, lp, None, Some(isl2));
                                                    }
                                                }
                                            }
                                        },
                                    }
                                },
                                None => {},
                            }
                        },
                        None => {},
                    }
                }
            }
            if !done {
                proof {
                    lemma_step_unlinked(self, &g0, pid as int);
                }
            }
            pid = pid + 1;
        }
        proof {
            assert forall|s: int| 0 <= s < self.cluster_storage@.len() && #[trigger] self.cluster_storage@[s] is Some implies {
                let c = self.cluster_storage@[s]->0;
                &&& c.wf()
                &&& c.id.1 * self.cluster_cols + c.id.0 == s
                &&& c.id.0 < self.cluster_cols
            } by {
                assert(g0.cluster_storage@[s] is Some);
                assert(links_ready(&g0.cluster_storage@[s]->0));
                lemma_ready_kept(&self.cluster_storage@[s]->0, &g0.cluster_storage@[s]->0);
            }
        }
    }
}

} // verus!
