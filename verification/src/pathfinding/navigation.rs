//! Path following: what a unit on a path steers toward this tick, and how
//! its path advances.
use vstd::prelude::*;
use crate::fixed::{FixedNum, FixedVec2, COORD_LIMIT, fixed_mul_spec, length_squared_spec};
use crate::flow_field::FlowField;
use crate::pathfinding::types::{Rect, RegionPortal, RegionId, IslandId, ClusterIslandId, mid_bits, MAX_REGIONS, MAX_ISLANDS, CLUSTER_SIZE, NO_PATH};
use crate::pathfinding::cluster::Cluster;
use crate::pathfinding::graph::linear_island;
use crate::pathfinding::portal_scan::clusters_across;
use crate::pathfinding::graph::HierarchicalGraph;
use crate::pathfinding::navigation_lookup::{NavigationLookup, NavigationCell, cell_in_arenas};
use crate::pathfinding::navigation_routing::{NavigationRouting, LocalRegionId, NO_REGION};
use crate::pathfinding::island_links::links_ready;
use crate::pathfinding::island_detection::regions_dense;

verus! {

/// How a unit moves along its path.
pub enum PathState {
    /// Through the cluster graph toward `goal`.
    Hierarchical { goal: FixedVec2 },
    /// Straight toward the target.
    Direct(FixedVec2),
    /// Along waypoints, the next one at `current_index`.
    LocalAStar { waypoints: Vec<FixedVec2>, current_index: usize },
}

/// A unit's path: still followed, finished, or found impossible.
pub enum Path {
    Active(PathState),
    Completed,
    Blocked,
}

/// Navigation cell of a path's goal, looked up when the path was requested.
#[derive(Clone, Copy, Debug)]
pub struct GoalNavCell(pub NavigationCell);

/// What a unit does with its acceleration this tick.
#[derive(Clone, Copy, Debug, PartialEq, Eq, Structural)]
pub enum Steering {
    /// Steer toward the point.
    Seek(FixedVec2),
    /// Brake against the current velocity.
    Brake,
    /// Leave the acceleration as it is.
    Idle,
}

/// State of a path after a step of hierarchical navigation.
#[derive(Clone, Copy, Debug, PartialEq, Eq, Structural)]
pub enum PathStatus {
    Active,
    Completed,
    Blocked,
}

/// Outcome of one tick of path following for one unit.
#[derive(Clone, Copy, Debug, PartialEq, Eq, Structural)]
pub struct FollowStep {
    pub steering: Steering,
}

/// The goal lies closer than the threshold: the squared distance is below
/// `threshold_sq`.
pub open spec fn arrived(pos: FixedVec2, goal: FixedVec2, threshold_sq: FixedNum) -> bool {
    length_squared_spec(goal.x.bits - pos.x.bits, goal.y.bits - pos.y.bits) < threshold_sq.bits
}

/// Brake and finish where the goal is reached, else seek it.
pub open spec fn arrive_or_seek(pos: FixedVec2, goal: FixedVec2, threshold_sq: FixedNum) -> (Steering, PathStatus) {
    if arrived(pos, goal, threshold_sq) {
        (Steering::Brake, PathStatus::Completed)
    } else {
        (Steering::Seek(goal), PathStatus::Active)
    }
}

/// Centre of a rectangle, each coordinate rounded down.
pub open spec fn rect_center(r: Rect) -> FixedVec2 {
    FixedVec2 {
        x: FixedNum { bits: mid_bits(r.min.x.bits as int, r.max.x.bits as int) as i64 },
        y: FixedNum { bits: mid_bits(r.min.y.bits as int, r.max.y.bits as int) as i64 },
    }
}

/// Local region id held in a region arena index.
pub open spec fn local_region(region_idx: u32) -> LocalRegionId {
    LocalRegionId((region_idx % (MAX_REGIONS as u32)) as u8)
}

/// One step of navigation through the cluster graph from `pos` toward `goal`,
/// whose cell is `goal_nav`: blocked off the grid; within the goal's region,
/// straight to the goal; within its cluster, toward the next region on the
/// recorded region route (or straight to the goal where that is the goal's
/// region); elsewhere, toward the first portal of the recorded island route.
/// Blocked wherever a route, region or portal is missing.
pub open spec fn hierarchical_step_spec(
    pos: FixedVec2,
    goal: FixedVec2,
    goal_nav: NavigationCell,
    threshold_sq: FixedNum,
    ff: &FlowField,
    lookup: &NavigationLookup,
    routing: &NavigationRouting,
    graph: &HierarchicalGraph,
) -> (Steering, PathStatus) {
    let blocked = (Steering::Idle, PathStatus::Blocked);
    match ff.world_to_grid_spec(pos) {
        None => blocked,
        Some((gx, gy)) => if !((gx as int) < lookup.dims().0 && (gy as int) < lookup.dims().1) {
            blocked
        } else {
            let cur = lookup.cell(gx as int, gy as int);
            if cur.region_idx == goal_nav.region_idx {
                arrive_or_seek(pos, goal, threshold_sq)
            } else if cur.cluster_idx == goal_nav.cluster_idx {
                let cl = lookup.arena_state().clusters@[cur.cluster_idx.0 as int];
                let goal_local = local_region(goal_nav.region_idx.0);
                match routing.region_routing.next_region(
                    cur.cluster_idx,
                    goal_nav.cluster_idx,
                    local_region(cur.region_idx.0),
                    goal_local,
                ) {
                    None => blocked,
                    Some(next) => if next == goal_local {
                        arrive_or_seek(pos, goal, threshold_sq)
                    } else {
                        match cl.regions@[next.0 as int] {
                            Some(reg) => (Steering::Seek(rect_center(reg.bounds)), PathStatus::Active),
                            None => blocked,
                        }
                    },
                }
            } else {
                match routing.island_routing.route(cur.island_idx, goal_nav.island_idx) {
                    None => blocked,
                    Some(pid) => if pid < graph.portals@.len() {
                        (Steering::Seek(graph.portals@[pid as int].world_pos), PathStatus::Active)
                    } else {
                        blocked
                    },
                }
            }
        },
    }
}

/// Every recorded region route names a region slot of a cluster.
pub open spec fn region_routes_in_range(routing: &NavigationRouting) -> bool {
    forall|i: int|
        0 <= i < routing.region_routing.entries().len() ==> #[trigger] routing.region_routing.entries()[i] == NO_REGION
            || routing.region_routing.entries()[i] < MAX_REGIONS
}

/// Route lookups between any two cells of the lookup can be indexed without
/// overflow.
pub open spec fn routing_fits(lookup: &NavigationLookup, routing: &NavigationRouting) -> bool {
    let n = lookup.arena_state().num_clusters as int;
    &&& routing.island_routing.wf()
    &&& routing.region_routing.wf()
    &&& n * MAX_ISLANDS * routing.island_routing.capacity() + n * MAX_ISLANDS <= usize::MAX
    &&& n * (routing.region_routing.clusters() * MAX_REGIONS * MAX_REGIONS) + n * (MAX_REGIONS * MAX_REGIONS) <= usize::MAX
}

/// What one step of hierarchical navigation needs of its inputs.
pub open spec fn navigation_ready(
    pos: FixedVec2,
    goal: FixedVec2,
    goal_nav: NavigationCell,
    ff: &FlowField,
    lookup: &NavigationLookup,
    routing: &NavigationRouting,
) -> bool {
    &&& pos.in_range()
    &&& goal.in_range()
    &&& ff.geometry_ok()
    &&& lookup.wf()
    &&& cell_in_arenas(&lookup.arena_state(), goal_nav)
    &&& routing_fits(lookup, routing)
    &&& region_routes_in_range(routing)
}

/// Brakes and finishes where `goal` is closer than the threshold, else seeks it.
fn arrive_or_seek_step(pos: FixedVec2, goal: FixedVec2, threshold_sq: FixedNum) -> (r: (Steering, PathStatus))
    requires
        pos.in_range(),
        goal.in_range(),
    ensures
        r == arrive_or_seek(pos, goal, threshold_sq),
        r.1 == PathStatus::Completed <==> threshold_sq.bits > length_squared_spec(goal.x.bits - pos.x.bits, goal.y.bits - pos.y.bits),
        r.1 == PathStatus::Completed ==> r.0 == Steering::Brake,
        r.1 != PathStatus::Completed ==> r.1 == PathStatus::Active && r.0 == Steering::Seek(goal),
{
    let delta = goal.sub(pos);
    let dist_sq = delta.length_squared();
    if dist_sq.lt(threshold_sq) {
        (Steering::Brake, PathStatus::Completed)
    } else {
        (Steering::Seek(goal), PathStatus::Active)
    }
}

/// One step of navigation through the cluster graph, as
/// `hierarchical_step_spec` describes it.
pub fn hierarchical_step(
    pos: FixedVec2,
    goal: FixedVec2,
    goal_nav: NavigationCell,
    threshold_sq: FixedNum,
    ff: &FlowField,
    lookup: &NavigationLookup,
    routing: &NavigationRouting,
    graph: &HierarchicalGraph,
) -> (r: (Steering, PathStatus))
    requires
        navigation_ready(pos, goal, goal_nav, ff, lookup, routing),
    ensures
        r == hierarchical_step_spec(pos, goal, goal_nav, threshold_sq, ff, lookup, routing, graph),
{
    let blocked = (Steering::Idle, PathStatus::Blocked);
    let (grid_x, grid_y) = match ff.world_to_grid(pos) {
        Some(g) => g,
        None => {
            return blocked;
        },
    };
    let current = match lookup.lookup(grid_x, grid_y) {
        Some(c) => c,
        None => {
            return blocked;
        },
    };
    let ghost a = lookup.arena_state();
    let ghost n = a.num_clusters as int;
    proof {
        lookup.lemma_cell_in_arenas(grid_x as int, grid_y as int);
    }
    if current.region_idx == goal_nav.region_idx {
        return arrive_or_seek_step(pos, goal, threshold_sq);
    }
    if current.cluster_idx == goal_nav.cluster_idx {
        let cluster = match lookup.arenas().get_cluster(current.cluster_idx) {
            Some(c) => c,
            None => {
                return blocked;
            },
        };
        let current_local = LocalRegionId((current.region_idx.0 % (MAX_REGIONS as u32)) as u8);
        let goal_local = LocalRegionId((goal_nav.region_idx.0 % (MAX_REGIONS as u32)) as u8);
        proof {
            let c = routing.region_routing.clusters() as int;
            assert(routing.region_routing.slot(current.cluster_idx, goal_nav.cluster_idx, current_local, goal_local)
                < n * (c * MAX_REGIONS * MAX_REGIONS) + n * (MAX_REGIONS * MAX_REGIONS)) by (nonlinear_arith)
                requires
                    0 <= current.cluster_idx.0 < n,
                    0 <= goal_nav.cluster_idx.0 < n,
                    0 <= current_local.0 < MAX_REGIONS,
                    0 <= goal_local.0 < MAX_REGIONS,
                    c >= 0,
                    routing.region_routing.slot(current.cluster_idx, goal_nav.cluster_idx, current_local, goal_local)
                        == current.cluster_idx.0 * (c * MAX_REGIONS * MAX_REGIONS) + goal_nav.cluster_idx.0 * (MAX_REGIONS * MAX_REGIONS)
                        + current_local.0 * MAX_REGIONS + goal_local.0,
            ;
        }
        let next_region = match routing.region_routing.get_next_region(
            current.cluster_idx,
            goal_nav.cluster_idx,
            current_local,
            goal_local,
        ) {
            Some(r) => r,
            None => {
                return blocked;
            },
        };
        proof {
            let s = routing.region_routing.slot(current.cluster_idx, goal_nav.cluster_idx, current_local, goal_local);
            assert(routing.region_routing.entries()[s] == NO_REGION || routing.region_routing.entries()[s] < MAX_REGIONS);
        }
        if next_region == goal_local {
            return arrive_or_seek_step(pos, goal, threshold_sq);
        }
        proof {
            assert(links_ready(&a.clusters@[current.cluster_idx.0 as int]));
        }
        match &cluster.regions[next_region.0 as usize] {
            Some(region) => {
                proof {
                    assert(regions_dense(cluster));
                    assert((next_region.0 as int) < cluster.region_count);
                }
                let center = region.bounds.center();
                (Steering::Seek(center), PathStatus::Active)
            },
            None => blocked,
        }
    } else {
        proof {
            let c = routing.island_routing.capacity() as int;
            assert(routing.island_routing.slot(current.island_idx, goal_nav.island_idx) < n * MAX_ISLANDS * c + n * MAX_ISLANDS)
                by (nonlinear_arith)
                requires
                    0 <= current.island_idx.0 < n * MAX_ISLANDS,
                    0 <= goal_nav.island_idx.0 < n * MAX_ISLANDS,
                    c >= 0,
                    routing.island_routing.slot(current.island_idx, goal_nav.island_idx) == current.island_idx.0 * c + goal_nav.island_idx.0,
            ;
        }
        match routing.island_routing.find_next_portal(current.island_idx, goal_nav.island_idx) {
            Some(portal_id) => {
                if portal_id < graph.portals.len() {
                    (Steering::Seek(graph.portals[portal_id].world_pos), PathStatus::Active)
                } else {
                    blocked
                }
            },
            None => blocked,
        }
    }
}


/// What following a path needs of its inputs: positions and waypoints in
/// range, and for navigation through the cluster graph what
/// `navigation_ready` asks.
pub open spec fn follow_ready(
    path: Path,
    pos: FixedVec2,
    goal_nav: NavigationCell,
    ff: &FlowField,
    lookup: &NavigationLookup,
    routing: &NavigationRouting,
) -> bool {
    &&& pos.in_range()
    &&& match path {
        Path::Active(PathState::Hierarchical { goal }) => navigation_ready(pos, goal, goal_nav, ff, lookup, routing),
        Path::Active(PathState::Direct(target)) => target.in_range(),
        Path::Active(PathState::LocalAStar { waypoints, current_index }) => forall|i: int|
            0 <= i < waypoints@.len() ==> (#[trigger] waypoints@[i]).in_range(),
        _ => true,
    }
}

/// One tick of path following from `pos`: the path afterwards and what the
/// unit does. A finished or blocked path stays as it is. Navigation through
/// the cluster graph finishes or blocks the path as its step says. A direct
/// path finishes, braking, once the target is reached, else seeks it. A
/// waypoint path whose waypoints are used up finishes, braking; one whose
/// current waypoint is reached moves on to the next, finishing and braking
/// after the last; else it seeks that waypoint. Each unit's step depends on
/// its own path alone.
pub open spec fn follow_spec(
    path: Path,
    pos: FixedVec2,
    goal_nav: NavigationCell,
    threshold_sq: FixedNum,
    ff: &FlowField,
    lookup: &NavigationLookup,
    routing: &NavigationRouting,
    graph: &HierarchicalGraph,
) -> (Path, FollowStep) {
    match path {
        Path::Active(PathState::Hierarchical { goal }) => {
            let (steering, status) = hierarchical_step_spec(pos, goal, goal_nav, threshold_sq, ff, lookup, routing, graph);
            let next = match status {
                PathStatus::Active => path,
                PathStatus::Completed => Path::Completed,
                PathStatus::Blocked => Path::Blocked,
            };
            (next, FollowStep { steering })
        },
        Path::Active(PathState::Direct(target)) => if arrived(pos, target, threshold_sq) {
            (Path::Completed, FollowStep { steering: Steering::Brake })
        } else {
            (path, FollowStep { steering: Steering::Seek(target) })
        },
        Path::Active(PathState::LocalAStar { waypoints, current_index }) => if current_index >= waypoints@.len() {
            (Path::Completed, FollowStep { steering: Steering::Brake })
        } else if arrived(pos, waypoints@[current_index as int], threshold_sq) {
            if current_index + 1 >= waypoints@.len() {
                (Path::Completed, FollowStep { steering: Steering::Brake })
            } else {
                (
                    Path::Active(PathState::LocalAStar { waypoints, current_index: (current_index + 1) as usize }),
                    FollowStep { steering: Steering::Idle },
                )
            }
        } else {
            (path, FollowStep { steering: Steering::Seek(waypoints@[current_index as int]) })
        },
        _ => (path, FollowStep { steering: Steering::Idle }),
    }
}

fn follow_owned(
    path: Path,
    pos: FixedVec2,
    goal_nav: NavigationCell,
    threshold_sq: FixedNum,
    ff: &FlowField,
    lookup: &NavigationLookup,
    routing: &NavigationRouting,
    graph: &HierarchicalGraph,
) -> (r: (Path, FollowStep))
    requires
        follow_ready(path, pos, goal_nav, ff, lookup, routing),
    ensures
        r == follow_spec(path, pos, goal_nav, threshold_sq, ff, lookup, routing, graph),
{
    match path {
        Path::Active(state) => match state {
            PathState::Hierarchical { goal } => {
                let (steering, status) = hierarchical_step(pos, goal, goal_nav, threshold_sq, ff, lookup, routing, graph);
                let next = match status {
                    PathStatus::Active => Path::Active(PathState::Hierarchical { goal }),
                    PathStatus::Completed => Path::Completed,
                    PathStatus::Blocked => Path::Blocked,
                };
                (next, FollowStep { steering })
            },
            PathState::Direct(target) => {
                let (steering, status) = arrive_or_seek_step(pos, target, threshold_sq);
                match status {
                    PathStatus::Completed => (Path::Completed, FollowStep { steering }),
                    _ => (Path::Active(PathState::Direct(target)), FollowStep { steering }),
                }
            },
            PathState::LocalAStar { waypoints, current_index } => {
                if current_index >= waypoints.len() {
                    return (Path::Completed, FollowStep { steering: Steering::Brake });
                }
                let target = waypoints[current_index];
                let (steering, status) = arrive_or_seek_step(pos, target, threshold_sq);
                match status {
                    PathStatus::Completed => {
                        let next_index = current_index + 1;
                        if next_index >= waypoints.len() {
                            (Path::Completed, FollowStep { steering: Steering::Brake })
                        } else {
                            (
                                Path::Active(PathState::LocalAStar { waypoints, current_index: next_index }),
                                FollowStep { steering: Steering::Idle },
                            )
                        }
                    },
                    _ => (Path::Active(PathState::LocalAStar { waypoints, current_index }), FollowStep { steering }),
                }
            },
        },
        Path::Completed => (Path::Completed, FollowStep { steering: Steering::Idle }),
        Path::Blocked => (Path::Blocked, FollowStep { steering: Steering::Idle }),
    }
}

/// A unit on a direct path to `target` keeps its path and seeks the target
/// while its squared distance from it is at least `threshold_sq`, and
/// finishes its path, braking, exactly when that distance is below it; the
/// other paths of the world play no part.
pub open spec fn direct_path_law(target: FixedVec2, pos: FixedVec2, threshold_sq: FixedNum, next: Path, step: FollowStep) -> bool {
    let d2 = length_squared_spec(target.x.bits - pos.x.bits, target.y.bits - pos.y.bits);
    &&& (d2 >= threshold_sq.bits ==> next == Path::Active(PathState::Direct(target)) && step.steering == Steering::Seek(target))
    &&& (d2 < threshold_sq.bits ==> next == Path::Completed && step.steering == Steering::Brake)
}

/// One tick on a direct path obeys `direct_path_law`, whatever else holds.
pub proof fn law_direct_path(
    target: FixedVec2,
    pos: FixedVec2,
    goal_nav: NavigationCell,
    threshold_sq: FixedNum,
    ff: &FlowField,
    lookup: &NavigationLookup,
    routing: &NavigationRouting,
    graph: &HierarchicalGraph,
)
    ensures
        ({
            let (next, step) = follow_spec(Path::Active(PathState::Direct(target)), pos, goal_nav, threshold_sq, ff, lookup, routing, graph);
            direct_path_law(target, pos, threshold_sq, next, step)
        }),
{
}

/// A unit on a waypoint path at waypoint `idx`: with the waypoints used up
/// it finishes, braking; while its squared distance from the current
/// waypoint is at least `threshold_sq` it keeps the path and seeks that
/// waypoint; once below, it moves on to the next waypoint standing still,
/// or finishes, braking, after the last.
pub open spec fn waypoint_path_law(waypoints: Vec<FixedVec2>, idx: usize, pos: FixedVec2, threshold_sq: FixedNum, next: Path, step: FollowStep) -> bool {
    let n = waypoints@.len();
    &&& (idx >= n ==> next == Path::Completed && step.steering == Steering::Brake)
    &&& (idx < n ==> {
        let wp = waypoints@[idx as int];
        let d2 = length_squared_spec(wp.x.bits - pos.x.bits, wp.y.bits - pos.y.bits);
        &&& (d2 >= threshold_sq.bits ==> next == Path::Active(PathState::LocalAStar { waypoints, current_index: idx })
            && step.steering == Steering::Seek(wp))
        &&& (d2 < threshold_sq.bits && idx + 1 >= n ==> next == Path::Completed && step.steering == Steering::Brake)
        &&& (d2 < threshold_sq.bits && idx + 1 < n ==> next == Path::Active(
            PathState::LocalAStar { waypoints, current_index: (idx + 1) as usize },
        ) && step.steering == Steering::Idle)
    })
}

/// One tick on a waypoint path obeys `waypoint_path_law`, whatever else holds.
pub proof fn law_waypoint_path(
    waypoints: Vec<FixedVec2>,
    idx: usize,
    pos: FixedVec2,
    goal_nav: NavigationCell,
    threshold_sq: FixedNum,
    ff: &FlowField,
    lookup: &NavigationLookup,
    routing: &NavigationRouting,
    graph: &HierarchicalGraph,
)
    ensures
        ({
            let (next, step) = follow_spec(
                Path::Active(PathState::LocalAStar { waypoints, current_index: idx }),
                pos,
                goal_nav,
                threshold_sq,
                ff,
                lookup,
                routing,
                graph,
            );
            waypoint_path_law(waypoints, idx, pos, threshold_sq, next, step)
        }),
{
}

/// Follows `path` one tick from `pos`, as `follow_spec` describes it.
pub fn follow_path_unit(
    path: &mut Path,
    pos: FixedVec2,
    goal_nav: &GoalNavCell,
    threshold_sq: FixedNum,
    ff: &FlowField,
    lookup: &NavigationLookup,
    routing: &NavigationRouting,
    graph: &HierarchicalGraph,
) -> (r: FollowStep)
    requires
        follow_ready(*old(path), pos, goal_nav.0, ff, lookup, routing),
    ensures
        (*final(path), r) == follow_spec(*old(path), pos, goal_nav.0, threshold_sq, ff, lookup, routing, graph),
        *old(path) matches Path::Active(PathState::Direct(target)) ==> direct_path_law(target, pos, threshold_sq, *final(path), r),
        *old(path) matches Path::Active(PathState::LocalAStar { waypoints, current_index }) ==> waypoint_path_law(
            waypoints,
            current_index,
            pos,
            threshold_sq,
            *final(path),
            r,
        ),
{
    let mut current = Path::Completed;
    std::mem::swap(path, &mut current);
    let (next, step) = follow_owned(current, pos, goal_nav.0, threshold_sq, ff, lookup, routing, graph);
    *path = next;
    step
}

/// Largest acceleration or velocity component that braking accepts.
pub const BRAKE_LIMIT: i64 = 0x10_0000_0000;

/// Squared arrival distance for units moving at `speed` for ticks of length
/// `delta`: the larger of one tick's travel and `arrival_threshold`, squared
/// (each product rounded down).
pub open spec fn arrival_threshold_sq_spec(speed: FixedNum, delta: FixedNum, arrival_threshold: FixedNum) -> int {
    let step = fixed_mul_spec(speed.bits as int, delta.bits as int);
    let t = if step > arrival_threshold.bits { step } else { arrival_threshold.bits as int };
    fixed_mul_spec(t, t)
}

/// The squared arrival distance, as `arrival_threshold_sq_spec` says.
pub fn arrival_threshold_sq(speed: FixedNum, delta: FixedNum, arrival_threshold: FixedNum) -> (r: FixedNum)
    requires
        -BRAKE_LIMIT <= speed.bits <= BRAKE_LIMIT,
        0 <= delta.bits <= 65536,
        -BRAKE_LIMIT <= arrival_threshold.bits <= BRAKE_LIMIT,
    ensures
        r.bits == arrival_threshold_sq_spec(speed, delta, arrival_threshold),
{
    proof {
        assert(-BRAKE_LIMIT * 65536 <= speed.bits * delta.bits <= BRAKE_LIMIT * 65536) by (nonlinear_arith)
            requires
                -BRAKE_LIMIT <= speed.bits <= BRAKE_LIMIT,
                0 <= delta.bits <= 65536,
        ;
        vstd::arithmetic::div_mod::lemma_div_is_ordered(speed.bits * delta.bits, BRAKE_LIMIT * 65536, 65536);
        vstd::arithmetic::div_mod::lemma_div_is_ordered(-BRAKE_LIMIT * 65536, speed.bits * delta.bits, 65536);
        assert((BRAKE_LIMIT * 65536) / 65536 == BRAKE_LIMIT);
        assert((-BRAKE_LIMIT * 65536) / 65536 == -BRAKE_LIMIT);
    }
    let step = speed.mul(delta);
    let t = if step.bits > arrival_threshold.bits { step } else { arrival_threshold };
    proof {
        lemma_small_product(t.bits as int, t.bits as int);
    }
    t.mul(t)
}

/// `acc` less `vel` scaled by `braking_force`: the acceleration after
/// braking, each product rounded toward negative infinity.
pub fn brake(acc: FixedVec2, vel: FixedVec2, braking_force: FixedNum) -> (r: FixedVec2)
    requires
        -BRAKE_LIMIT <= acc.x.bits <= BRAKE_LIMIT,
        -BRAKE_LIMIT <= acc.y.bits <= BRAKE_LIMIT,
        -BRAKE_LIMIT <= vel.x.bits <= BRAKE_LIMIT,
        -BRAKE_LIMIT <= vel.y.bits <= BRAKE_LIMIT,
        -BRAKE_LIMIT <= braking_force.bits <= BRAKE_LIMIT,
    ensures
        r.x.bits == acc.x.bits - fixed_mul_spec(vel.x.bits as int, braking_force.bits as int),
        r.y.bits == acc.y.bits - fixed_mul_spec(vel.y.bits as int, braking_force.bits as int),
{
    proof {
        lemma_small_product(vel.x.bits as int, braking_force.bits as int);
        lemma_small_product(vel.y.bits as int, braking_force.bits as int);
    }
    let bx = vel.x.mul(braking_force);
    let by = vel.y.mul(braking_force);
    FixedVec2 { x: acc.x.sub(bx), y: acc.y.sub(by) }
}

proof fn lemma_small_product(a: int, b: int)
    requires
        -BRAKE_LIMIT <= a <= BRAKE_LIMIT,
        -BRAKE_LIMIT <= b <= BRAKE_LIMIT,
    ensures
        -0x100_0000_0000_0000 <= fixed_mul_spec(a, b) <= 0x100_0000_0000_0000,
{
    assert(-0x100_0000_0000_0000_0000 <= a * b <= 0x100_0000_0000_0000_0000) by (nonlinear_arith)
        requires
            -0x10_0000_0000 <= a <= 0x10_0000_0000,
            -0x10_0000_0000 <= b <= 0x10_0000_0000,
    ;
    vstd::arithmetic::div_mod::lemma_div_is_ordered(-0x100_0000_0000_0000_0000, a * b, 65536);
    vstd::arithmetic::div_mod::lemma_div_is_ordered(a * b, 0x100_0000_0000_0000_0000, 65536);
    assert(-0x100_0000_0000_0000_0000int / 65536 == -0x100_0000_0000_0000int);
    assert(0x100_0000_0000_0000_0000int / 65536 == 0x100_0000_0000_0000int);
}


/// Where a unit should move next, as the cluster graph sees it.
#[derive(Clone, Copy, Debug, PartialEq, Eq, Structural)]
pub enum NavigationTarget {
    /// Straight toward the goal.
    Direct(FixedVec2),
    /// Toward a portal into a neighbouring cluster.
    InterClusterPortal(FixedVec2),
    /// Toward a portal into another region of the same cluster.
    IntraClusterPortal(FixedVec2),
    /// The goal is reached.
    Arrived,
    /// No route leads to the goal.
    Blocked,
}

/// The first of `portals` that leads into region `next`.
pub open spec fn find_portal(portals: Seq<RegionPortal>, next: u8) -> Option<RegionPortal>
    decreases portals.len(),
{
    if portals.len() == 0 {
        None
    } else if portals[0].next_region.0 == next {
        Some(portals[0])
    } else {
        find_portal(portals.drop_first(), next)
    }
}

/// World position of the first portal on the recorded island route from
/// `a` to `b`; none where `a` is `b`, no route is recorded or the portal
/// does not exist.
pub open spec fn route_portal_pos(g: &HierarchicalGraph, a: ClusterIslandId, b: ClusterIslandId) -> Option<FixedVec2> {
    let next = if a == b {
        None
    } else {
        g.island_route_spec(a, b)
    };
    match next {
        Some(pid) => if pid < g.portals@.len() {
            Some(g.portals@[pid as int].world_pos)
        } else {
            None
        },
        None => None,
    }
}

/// Target within the goal's cluster `cur`: straight to the goal within one
/// region or where a region is unknown; where the local route between the
/// two regions is missing, the first portal of the island route between
/// their islands when these differ, else the goal; otherwise the first
/// portal of the current region into the next region on the local route,
/// or the goal where there is none.
pub open spec fn same_cluster_target(
    goal: FixedVec2,
    cur: (usize, usize),
    g: &HierarchicalGraph,
    cl: Cluster,
    current_region: Option<RegionId>,
    goal_region: Option<RegionId>,
) -> NavigationTarget {
    match (current_region, goal_region) {
        (Some(c), Some(gr)) => if c == gr {
            NavigationTarget::Direct(goal)
        } else {
            let next = cl.route_spec(c.0 as int, gr.0 as int);
            if next == NO_PATH {
                match (cl.regions@[c.0 as int], cl.regions@[gr.0 as int]) {
                    (Some(rc), Some(rg)) => if rc.island != rg.island {
                        match route_portal_pos(g, ClusterIslandId { cluster: cur, island: rc.island }, ClusterIslandId { cluster: cur, island: rg.island }) {
                            Some(p) => NavigationTarget::InterClusterPortal(p),
                            None => NavigationTarget::Direct(goal),
                        }
                    } else {
                        NavigationTarget::Direct(goal)
                    },
                    _ => NavigationTarget::Direct(goal),
                }
            } else {
                match cl.regions@[c.0 as int] {
                    Some(rc) => match find_portal(rc.portals@, next) {
                        Some(p) => NavigationTarget::IntraClusterPortal(p.center),
                        None => NavigationTarget::Direct(goal),
                    },
                    None => NavigationTarget::Direct(goal),
                }
            }
        },
        _ => NavigationTarget::Direct(goal),
    }
}

/// Target from cluster `cur` toward another cluster: the first portal of the
/// island route from the current island (that of the current region, else
/// the one given) to the goal's island; straight to the goal where the
/// island is unknown or the portal missing; blocked where no route is
/// recorded.
pub open spec fn other_cluster_target(
    goal: FixedVec2,
    goal_cluster: (usize, usize),
    goal_island: IslandId,
    cur: (usize, usize),
    g: &HierarchicalGraph,
    cl: Cluster,
    current_region: Option<RegionId>,
    current_island: Option<IslandId>,
) -> NavigationTarget {
    let island = match current_region {
        Some(c) => match cl.regions@[c.0 as int] {
            Some(r) => Some(r.island),
            None => None,
        },
        None => current_island,
    };
    match island {
        None => NavigationTarget::Direct(goal),
        Some(i) => {
            let a = ClusterIslandId { cluster: cur, island: i };
            let b = ClusterIslandId { cluster: goal_cluster, island: goal_island };
            let next = if a == b {
                None
            } else {
                g.island_route_spec(a, b)
            };
            match next {
                Some(pid) => if pid < g.portals@.len() {
                    NavigationTarget::InterClusterPortal(g.portals@[pid as int].world_pos)
                } else {
                    NavigationTarget::Direct(goal)
                },
                None => NavigationTarget::Blocked,
            }
        },
    }
}

/// Where a unit at `pos` heading for `goal` (in cluster `goal_cluster`,
/// island `goal_island`) should move next. `current_region` and
/// `goal_region` are the regions of `pos` and of `goal` in the cluster
/// holding `pos`, and `current_island` the island of `pos` there, as that
/// cluster's world-position lookup gives them. Arrived within the
/// threshold; straight to the goal off the grid or where the cluster holding
/// `pos` is unknown; otherwise as `same_cluster_target` or
/// `other_cluster_target` say.
pub open spec fn navigation_target_spec(
    pos: FixedVec2,
    goal: FixedVec2,
    goal_cluster: (usize, usize),
    goal_island: IslandId,
    threshold_sq: FixedNum,
    g: &HierarchicalGraph,
    ff: &FlowField,
    current_region: Option<RegionId>,
    goal_region: Option<RegionId>,
    current_island: Option<IslandId>,
) -> NavigationTarget {
    if arrived(pos, goal, threshold_sq) {
        NavigationTarget::Arrived
    } else {
        match ff.world_to_grid_spec(pos) {
            None => NavigationTarget::Direct(goal),
            Some((gx, gy)) => {
                let cur = ((gx / CLUSTER_SIZE) as usize, (gy / CLUSTER_SIZE) as usize);
                match g.cluster_at(cur.0 as int, cur.1 as int) {
                    None => NavigationTarget::Direct(goal),
                    Some(cl) => if cur == goal_cluster {
                        same_cluster_target(goal, cur, g, cl, current_region, goal_region)
                    } else {
                        other_cluster_target(goal, goal_cluster, goal_island, cur, g, cl, current_region, current_island)
                    },
                }
            },
        }
    }
}

/// Island routes from any cluster of the flow field, or from the goal's
/// cluster, to the goal can be indexed without overflow.
pub open spec fn target_indices_fit(g: &HierarchicalGraph, ff: &FlowField, goal_cluster: (usize, usize)) -> bool {
    let rows = if clusters_across(ff.height as int) > goal_cluster.1 + 1 { clusters_across(ff.height as int) } else { goal_cluster.1 + 1 };
    let cols = if clusters_across(ff.width as int) > goal_cluster.0 + 1 { clusters_across(ff.width as int) } else { goal_cluster.0 + 1 };
    let l = (rows * g.cluster_cols + cols) * MAX_ISLANDS + 256;
    l * g.total_island_capacity + l <= usize::MAX
}

proof fn lemma_route_fits(g: &HierarchicalGraph, ff: &FlowField, goal_cluster: (usize, usize), a: ClusterIslandId, b: ClusterIslandId)
    requires
        target_indices_fit(g, ff, goal_cluster),
        (a.cluster.0 < clusters_across(ff.width as int) && a.cluster.1 < clusters_across(ff.height as int)) || a.cluster == goal_cluster,
        (b.cluster.0 < clusters_across(ff.width as int) && b.cluster.1 < clusters_across(ff.height as int)) || b.cluster == goal_cluster,
    ensures
        g.route_index_fits(a, b),
{
    let rows = if clusters_across(ff.height as int) > goal_cluster.1 + 1 { clusters_across(ff.height as int) } else { goal_cluster.1 + 1 };
    let cols = if clusters_across(ff.width as int) > goal_cluster.0 + 1 { clusters_across(ff.width as int) } else { goal_cluster.0 + 1 };
    let l = (rows * g.cluster_cols + cols) * MAX_ISLANDS + 256;
    let c = g.cluster_cols as int;
    let cap = g.total_island_capacity as int;
    assert(linear_island(c, a) < l) by (nonlinear_arith)
        requires
            0 <= a.cluster.1 < rows,
            0 <= a.cluster.0 < cols,
            0 <= a.island.0 < 256,
            c >= 0,
            linear_island(c, a) == (a.cluster.1 * c + a.cluster.0) * MAX_ISLANDS + a.island.0,
            l == (rows * c + cols) * MAX_ISLANDS + 256,
    ;
    assert(linear_island(c, b) < l) by (nonlinear_arith)
        requires
            0 <= b.cluster.1 < rows,
            0 <= b.cluster.0 < cols,
            0 <= b.island.0 < 256,
            c >= 0,
            linear_island(c, b) == (b.cluster.1 * c + b.cluster.0) * MAX_ISLANDS + b.island.0,
            l == (rows * c + cols) * MAX_ISLANDS + 256,
    ;
    assert(g.route_index(a, b) <= l * cap + l) by (nonlinear_arith)
        requires
            0 <= linear_island(c, a) < l,
            0 <= linear_island(c, b) < l,
            cap >= 0,
            g.route_index(a, b) == linear_island(c, a) * cap + linear_island(c, b),
    ;
    assert(0 <= linear_island(c, a)) by (nonlinear_arith)
        requires
            a.cluster.1 >= 0,
            c >= 0,
            linear_island(c, a) == (a.cluster.1 * c + a.cluster.0) * MAX_ISLANDS + a.island.0,
    ;
}

proof fn lemma_cluster_of_cell(g: int, n: int)
    requires
        0 <= g < n,
    ensures
        g / (CLUSTER_SIZE as int) < clusters_across(n),
{
    assert(g / 25 < (n + 24) / 25) by (nonlinear_arith)
        requires
            0 <= g < n,
    ;
}

/// First portal of `portals` leading into region `next`.
fn first_portal_to(portals: &Vec<RegionPortal>, next: u8) -> (r: Option<RegionPortal>)
    ensures
        r == find_portal(portals@, next),
{
    let mut i: usize = 0;
    proof {
        assert(portals@.subrange(0, portals@.len() as int) =~= portals@);
    }
    while i < portals.len()
        invariant
            i <= portals@.len(),
            find_portal(portals@.subrange(i as int, portals@.len() as int), next) == find_portal(portals@, next),
        decreases portals@.len() - i,
    {
        let p = portals[i];
        proof {
            let rest = portals@.subrange(i as int, portals@.len() as int);
            assert(rest[0] == p);
            assert(rest.drop_first() =~= portals@.subrange(i + 1, portals@.len() as int));
        }
        if p.next_region.0 == next {
            return Some(p);
        }
        i = i + 1;
    }
    proof {
        assert(portals@.subrange(i as int, portals@.len() as int).len() == 0);
    }
    None
}

/// Where a unit at `pos` heading for `goal` should move next, as
/// `navigation_target_spec` describes it.
pub fn compute_navigation_target(
    pos: FixedVec2,
    goal: FixedVec2,
    goal_cluster: (usize, usize),
    goal_island: IslandId,
    threshold_sq: FixedNum,
    graph: &HierarchicalGraph,
    flow_field: &FlowField,
    current_region: Option<RegionId>,
    goal_region: Option<RegionId>,
    current_island: Option<IslandId>,
) -> (r: NavigationTarget)
    requires
        pos.in_range(),
        goal.in_range(),
        flow_field.geometry_ok(),
        graph.wf(),
        target_indices_fit(graph, flow_field, goal_cluster),
        current_region matches Some(c) ==> (c.0 as int) < MAX_REGIONS,
        goal_region matches Some(c) ==> (c.0 as int) < MAX_REGIONS,
    ensures
        r == navigation_target_spec(pos, goal, goal_cluster, goal_island, threshold_sq, graph, flow_field, current_region, goal_region, current_island),
{
    let (arrive_steer, arrive_status) = arrive_or_seek_step(pos, goal, threshold_sq);
    if arrive_status == PathStatus::Completed {
        return NavigationTarget::Arrived;
    }
    let (grid_x, grid_y) = match flow_field.world_to_grid(pos) {
        Some(g) => g,
        None => {
            return NavigationTarget::Direct(goal);
        },
    };
    let cur = (grid_x / CLUSTER_SIZE, grid_y / CLUSTER_SIZE);
    let cluster = match graph.get_cluster(cur.0, cur.1) {
        Some(c) => c,
        None => {
            return NavigationTarget::Direct(goal);
        },
    };
    proof {
        lemma_cluster_of_cell(grid_x as int, flow_field.width as int);
        lemma_cluster_of_cell(grid_y as int, flow_field.height as int);
        assert(cur.1 * graph.cluster_cols + cur.0 < graph.cluster_cols * graph.cluster_rows) by (nonlinear_arith)
            requires
                cur.0 < graph.cluster_cols,
                cur.1 < graph.cluster_rows,
        ;
        assert(graph.cluster_storage@[cur.1 * graph.cluster_cols + cur.0] is Some);
        assert(cluster.wf());
    }
    if cur.0 == goal_cluster.0 && cur.1 == goal_cluster.1 {
        match (current_region, goal_region) {
            (Some(c), Some(gr)) => {
                if c == gr {
                    return NavigationTarget::Direct(goal);
                }
                let next = cluster.route(c.0 as usize, gr.0 as usize);
                if next == NO_PATH {
                    match (&cluster.regions[c.0 as usize], &cluster.regions[gr.0 as usize]) {
                        (Some(rc), Some(rg)) => {
                            if rc.island != rg.island {
                                let a = ClusterIslandId::new(cur, rc.island);
                                let b = ClusterIslandId::new(cur, rg.island);
                                proof {
                                    lemma_route_fits(graph, flow_field, goal_cluster, a, b);
                                }
                                match graph.get_next_portal_for_island(a, b) {
                                    Some(pid) => {
                                        if pid < graph.portals.len() {
                                            return NavigationTarget::InterClusterPortal(graph.portals[pid].world_pos);
                                        }
                                    },
                                    None => {},
                                }
                            }
                            NavigationTarget::Direct(goal)
                        },
                        _ => NavigationTarget::Direct(goal),
                    }
                } else {
                    match &cluster.regions[c.0 as usize] {
                        Some(rc) => match first_portal_to(&rc.portals, next) {
                            Some(p) => NavigationTarget::IntraClusterPortal(p.center),
                            None => NavigationTarget::Direct(goal),
                        },
                        None => NavigationTarget::Direct(goal),
                    }
                }
            },
            _ => NavigationTarget::Direct(goal),
        }
    } else {
        let island = match current_region {
            Some(c) => match &cluster.regions[c.0 as usize] {
                Some(r) => Some(r.island),
                None => None,
            },
            None => current_island,
        };
        match island {
            None => NavigationTarget::Direct(goal),
            Some(i) => {
                let a = ClusterIslandId::new(cur, i);
                let b = ClusterIslandId::new(goal_cluster, goal_island);
                proof {
                    lemma_route_fits(graph, flow_field, goal_cluster, a, b);
                }
                match graph.get_next_portal_for_island(a, b) {
                    Some(pid) => {
                        if pid < graph.portals.len() {
                            NavigationTarget::InterClusterPortal(graph.portals[pid].world_pos)
                        } else {
                            NavigationTarget::Direct(goal)
                        }
                    },
                    None => NavigationTarget::Blocked,
                }
            },
        }
    }
}


/// Records the cluster holding `pos` and its region there: both unknown off
/// the grid; the region is `region_at_pos` (the region of `pos` by its
/// cluster's world-position lookup) where the graph has that cluster, else
/// unknown.
pub fn update_location_cache(
    pos: FixedVec2,
    flow_field: &FlowField,
    graph: &HierarchicalGraph,
    current_cluster: &mut Option<(usize, usize)>,
    current_region: &mut Option<RegionId>,
    region_at_pos: Option<RegionId>,
)
    requires
        pos.in_range(),
        flow_field.geometry_ok(),
        graph.arena_wf(),
    ensures
        match flow_field.world_to_grid_spec(pos) {
            None => *final(current_cluster) is None && *final(current_region) is None,
            Some((gx, gy)) => {
                let c = ((gx / CLUSTER_SIZE) as usize, (gy / CLUSTER_SIZE) as usize);
                &&& *final(current_cluster) == Some(c)
                &&& *final(current_region) == if graph.cluster_at(c.0 as int, c.1 as int) is Some {
                    region_at_pos
                } else {
                    None
                }
            },
        },
{
    let (grid_x, grid_y) = match flow_field.world_to_grid(pos) {
        Some(g) => g,
        None => {
            *current_cluster = None;
            *current_region = None;
            return;
        },
    };
    let cluster = (grid_x / CLUSTER_SIZE, grid_y / CLUSTER_SIZE);
    *current_cluster = Some(cluster);
    *current_region = match graph.get_cluster(cluster.0, cluster.1) {
        Some(_) => region_at_pos,
        None => None,
    };
}

} // verus!
