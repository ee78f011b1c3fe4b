//! Properties that relate several operations of the pathfinding tables:
//! what a read gives back after a write, and what building guarantees of
//! every cluster's local routes.
use vstd::prelude::*;
use crate::fixed::{FixedNum, FixedVec2};
use crate::flow_field::FlowField;
use crate::pathfinding::types::{ClusterIslandId, MAX_REGIONS, NO_PATH};
use crate::pathfinding::cluster::Cluster;
use crate::pathfinding::graph::{HierarchicalGraph, NO_ROUTE};
use crate::pathfinding::navigation_routing::{
    IslandRoutingArena,
    RegionRoutingArena,
    IslandArenaIdx,
    ClusterArenaIdx,
    LocalRegionId,
    NO_REGION,
};
use crate::pathfinding::navigation_lookup::{NavigationLookup, NavigationCell};
use crate::pathfinding::navigation::{Path, FollowStep, Steering, follow_spec};
use crate::pathfinding::assembly::{cluster_built, graph_built_from};
use crate::pathfinding::navigation_routing::NavigationRouting;

verus! {

/// `after` is `before` with `portal_id` recorded from `source` toward
/// `dest`, as `set_island_route` leaves it.
pub open spec fn island_route_recorded(
    before: &HierarchicalGraph,
    after: &HierarchicalGraph,
    source: ClusterIslandId,
    dest: ClusterIslandId,
    portal_id: usize,
) -> bool {
    &&& after.island_routing_storage@ == if before.route_index(source, dest) < before.island_routing_storage@.len() {
        before.island_routing_storage@.update(before.route_index(source, dest), portal_id)
    } else {
        before.island_routing_storage@
    }
    &&& after.cluster_cols == before.cluster_cols
    &&& after.total_island_capacity == before.total_island_capacity
}

/// Reading a route back after recording it gives the recorded portal (no
/// route where the no-route marker was recorded), and leaves every route
/// stored at another table entry as it was.
pub proof fn law_island_route_read_after_write(
    before: &HierarchicalGraph,
    after: &HierarchicalGraph,
    source: ClusterIslandId,
    dest: ClusterIslandId,
    portal_id: usize,
)
    requires
        before.arena_wf(),
        before.route_index(source, dest) < before.island_routing_storage@.len(),
        island_route_recorded(before, after, source, dest, portal_id),
    ensures
        after.island_route_spec(source, dest) == if portal_id == NO_ROUTE {
            None
        } else {
            Some(portal_id)
        },
        forall|s: ClusterIslandId, d: ClusterIslandId| #[trigger]
            after.route_index(s, d) != after.route_index(source, dest) ==> after.island_route_spec(s, d)
                == before.island_route_spec(s, d),
{
}

/// `after` is `before` with `cluster` stored at `(cx, cy)`, as
/// `set_cluster` leaves it.
pub open spec fn cluster_recorded(
    before: &HierarchicalGraph,
    after: &HierarchicalGraph,
    cx: usize,
    cy: usize,
    cluster: Cluster,
) -> bool {
    &&& after.cluster_cols == before.cluster_cols
    &&& after.cluster_rows == before.cluster_rows
    &&& after.cluster_storage@ == if cx < before.cluster_cols && cy < before.cluster_rows {
        before.cluster_storage@.update(cy * before.cluster_cols + cx, Some(cluster))
    } else {
        before.cluster_storage@
    }
}

/// Storing a cluster at a position of the grid and reading that position
/// back gives the cluster; every other position reads as before. Outside
/// the grid nothing changes.
pub proof fn law_cluster_read_after_write(
    before: &HierarchicalGraph,
    after: &HierarchicalGraph,
    cx: usize,
    cy: usize,
    cluster: Cluster,
)
    requires
        before.arena_wf(),
        cluster_recorded(before, after, cx, cy, cluster),
    ensures
        after.cluster_at(cx as int, cy as int) == if cx < before.cluster_cols && cy < before.cluster_rows {
            Some(cluster)
        } else {
            None
        },
        forall|x: int, y: int| (x, y) != (cx as int, cy as int) ==> #[trigger] after.cluster_at(x, y) == before.cluster_at(x, y),
{
    let c = before.cluster_cols as int;
    let r = before.cluster_rows as int;
    if cx < before.cluster_cols && cy < before.cluster_rows {
        assert(cy * c + cx < c * r) by (nonlinear_arith)
            requires
                cx < c,
                cy < r,
        ;
    }
    assert forall|x: int, y: int| (x, y) != (cx as int, cy as int) implies #[trigger] after.cluster_at(x, y) == before.cluster_at(x, y) by {
        if 0 <= x < c && 0 <= y < r && cx < c && cy < r {
            assert(y * c + x != cy * c + cx) by (nonlinear_arith)
                requires
                    0 <= x < c,
                    0 <= cx < c,
                    0 <= y,
                    0 <= cy,
                    (x, y) != (cx as int, cy as int),
            ;
            assert(y * c + x < c * r) by (nonlinear_arith)
                requires
                    0 <= x < c,
                    0 <= y < r,
            ;
        }
    }
}

/// `after` is `before` with `portal_id` recorded from `start` toward `goal`,
/// as `IslandRoutingArena::set_route` leaves it.
pub open spec fn arena_route_recorded(
    before: &IslandRoutingArena,
    after: &IslandRoutingArena,
    start: IslandArenaIdx,
    goal: IslandArenaIdx,
    portal_id: usize,
) -> bool {
    &&& after.capacity() == before.capacity()
    &&& after.entries() == if before.slot(start, goal) < before.entries().len() {
        before.entries().update(before.slot(start, goal), portal_id)
    } else {
        before.entries()
    }
}

/// Reading an island route back after recording it gives the recorded
/// portal (none for the no-route marker); routes at other entries stay.
pub proof fn law_arena_route_read_after_write(
    before: &IslandRoutingArena,
    after: &IslandRoutingArena,
    start: IslandArenaIdx,
    goal: IslandArenaIdx,
    portal_id: usize,
)
    requires
        before.slot(start, goal) < before.entries().len(),
        arena_route_recorded(before, after, start, goal, portal_id),
    ensures
        after.route(start, goal) == if portal_id == NO_ROUTE {
            None
        } else {
            Some(portal_id)
        },
        forall|s: IslandArenaIdx, g: IslandArenaIdx| #[trigger]
            after.slot(s, g) != after.slot(start, goal) ==> after.route(s, g) == before.route(s, g),
{
}

/// `after` is `before` with `next` recorded for the given clusters and
/// regions, as `RegionRoutingArena::set_route` leaves it.
pub open spec fn region_route_recorded(
    before: &RegionRoutingArena,
    after: &RegionRoutingArena,
    sc: ClusterArenaIdx,
    ec: ClusterArenaIdx,
    sr: LocalRegionId,
    er: LocalRegionId,
    next: LocalRegionId,
) -> bool {
    &&& after.clusters() == before.clusters()
    &&& after.entries() == if before.slot(sc, ec, sr, er) < before.entries().len() {
        before.entries().update(before.slot(sc, ec, sr, er), next.0)
    } else {
        before.entries()
    }
}

/// Reading a region route back after recording it gives the recorded next
/// region (none for the no-region marker); routes at other entries stay.
pub proof fn law_region_route_read_after_write(
    before: &RegionRoutingArena,
    after: &RegionRoutingArena,
    sc: ClusterArenaIdx,
    ec: ClusterArenaIdx,
    sr: LocalRegionId,
    er: LocalRegionId,
    next: LocalRegionId,
)
    requires
        before.slot(sc, ec, sr, er) < before.entries().len(),
        region_route_recorded(before, after, sc, ec, sr, er, next),
    ensures
        after.next_region(sc, ec, sr, er) == if next.0 == NO_REGION {
            None
        } else {
            Some(next)
        },
        forall|a: ClusterArenaIdx, b: ClusterArenaIdx, c: LocalRegionId, d: LocalRegionId| #[trigger]
            after.slot(a, b, c, d) != after.slot(sc, ec, sr, er) ==> after.next_region(a, b, c, d) == before.next_region(a, b, c, d),
{
}

/// In every cluster of a built graph, the route from a region to itself
/// names that region, and every other recorded next hop is one of the
/// cluster's regions.
pub proof fn law_built_local_routes(prev: &HierarchicalGraph, g: &HierarchicalGraph, ff: &FlowField, cx: int, cy: int)
    requires
        graph_built_from(prev, g, ff),
        ff.width > 0,
        ff.height > 0,
        0 <= cx < g.cluster_cols,
        0 <= cy < g.cluster_rows,
    ensures
        g.cluster_at(cx, cy) is Some,
        forall|i: int| 0 <= i < g.cluster_at(cx, cy)->0.region_count ==> #[trigger] g.cluster_at(cx, cy)->0.route_spec(i, i) == i,
        forall|i: int, j: int|
            0 <= i < MAX_REGIONS && 0 <= j < MAX_REGIONS ==> (#[trigger] g.cluster_at(cx, cy)->0.route_spec(i, j) == NO_PATH
                || g.cluster_at(cx, cy)->0.route_spec(i, j) < g.cluster_at(cx, cy)->0.region_count),
{
    assert(g.cluster_at(cx, cy) is Some && cluster_built(ff, cx, cy, &g.cluster_at(cx, cy)->0));
    let c = g.cluster_at(cx, cy)->0;
    assert forall|i: int| 0 <= i < c.region_count implies #[trigger] c.route_spec(i, i) == i by {
        assert(c.route_spec(i, i) == NO_PATH || c.route_spec(i, i) < c.region_count);
    }
}

/// A finished or blocked path is left as it is, and the unit does nothing
/// with its acceleration.
pub proof fn law_finished_paths_stay(
    path: Path,
    pos: FixedVec2,
    goal_nav: NavigationCell,
    threshold_sq: FixedNum,
    ff: &FlowField,
    lookup: &NavigationLookup,
    routing: &NavigationRouting,
    graph: &HierarchicalGraph,
)
    requires
        path is Completed || path is Blocked,
    ensures
        follow_spec(path, pos, goal_nav, threshold_sq, ff, lookup, routing, graph) == (
            path,
            FollowStep { steering: Steering::Idle },
        ),
{
}

} // verus!
