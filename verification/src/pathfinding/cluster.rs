//! Clusters, and the portals that join two neighbouring clusters.
use vstd::prelude::*;
use crate::fixed::FixedNum;
use crate::flow_field::FlowField;
use crate::pathfinding::types::{Region, Island, Portal, Node, MAX_REGIONS, MAX_ISLANDS, NO_PATH};
use crate::pathfinding::graph::HierarchicalGraph;

verus! {

/// Cost of crossing a portal between clusters that share an edge.
pub const STRAIGHT_PORTAL_COST_BITS: i64 = 65536;

/// Cost of crossing a portal between clusters that share a corner
/// (1.414, the nearest fixed-point value).
pub const DIAGONAL_PORTAL_COST_BITS: i64 = 92668;

/// Entry from region `i` to region `j` of a flattened routing table.
pub open spec fn route_in(lr: Seq<u8>, i: int, j: int) -> u8 {
    lr[i * MAX_REGIONS + j]
}

/// One square cell block of the map, cut into regions and islands.
pub struct Cluster {
    pub id: (usize, usize),
    /// `MAX_REGIONS` slots; the first `region_count` hold the regions.
    pub regions: Vec<Option<Region>>,
    pub region_count: usize,
    /// `MAX_ISLANDS` slots; the first `island_count` hold the islands.
    pub islands: Vec<Option<Island>>,
    pub island_count: usize,
    /// Next region on the way from region `i` to region `j`, at `i * MAX_REGIONS + j`;
    /// `NO_PATH` where `j` cannot be reached.
    pub local_routing: Vec<u8>,
    /// Portal that island `i` uses in direction `d`, at `i * 8 + d`.
    pub neighbor_connectivity: Vec<Option<usize>>,
}

impl Cluster {
    /// Every table has its fixed size.
    pub open spec fn wf(&self) -> bool {
        &&& self.regions@.len() == MAX_REGIONS
        &&& self.islands@.len() == MAX_ISLANDS
        &&& self.local_routing@.len() == MAX_REGIONS * MAX_REGIONS
        &&& self.neighbor_connectivity@.len() == MAX_ISLANDS * 8
        &&& self.region_count <= MAX_REGIONS
        &&& self.island_count <= MAX_ISLANDS
    }

    /// Routing entry from region `i` to region `j`.
    pub open spec fn route_spec(&self, i: int, j: int) -> u8 {
        route_in(self.local_routing@, i, j)
    }

    /// Portal of island `i` in direction `d`.
    pub open spec fn neighbor_spec(&self, i: int, d: int) -> Option<usize> {
        self.neighbor_connectivity@[i * 8 + d]
    }

    /// An empty cluster: no regions, no islands, no routes, no portals.
    pub fn new(id: (usize, usize)) -> (r: Cluster)
        ensures
            r.wf(),
            r.id == id,
            r.region_count == 0,
            r.island_count == 0,
            forall|i: int| 0 <= i < MAX_REGIONS ==> #[trigger] r.regions@[i] is None,
            forall|i: int| 0 <= i < MAX_ISLANDS ==> #[trigger] r.islands@[i] is None,
            forall|i: int| 0 <= i < MAX_REGIONS * MAX_REGIONS ==> #[trigger] r.local_routing@[i] == NO_PATH,
            forall|i: int| 0 <= i < MAX_ISLANDS * 8 ==> #[trigger] r.neighbor_connectivity@[i] is None,
    {
        let mut regions: Vec<Option<Region>> = Vec::new();
        let mut i: usize = 0;
        while i < MAX_REGIONS
            invariant
                i <= MAX_REGIONS,
                regions@.len() == i,
                forall|j: int| 0 <= j < i ==> #[trigger] regions@[j] is None,
            decreases MAX_REGIONS - i,
        {
            regions.push(None);
            i = i + 1;
        }
        let mut islands: Vec<Option<Island>> = Vec::new();
        let mut i: usize = 0;
        while i < MAX_ISLANDS
            invariant
                i <= MAX_ISLANDS,
                islands@.len() == i,
                forall|j: int| 0 <= j < i ==> #[trigger] islands@[j] is None,
            decreases MAX_ISLANDS - i,
        {
            islands.push(None);
            i = i + 1;
        }
        let mut local_routing: Vec<u8> = Vec::new();
        let mut i: usize = 0;
        while i < MAX_REGIONS * MAX_REGIONS
            invariant
                i <= MAX_REGIONS * MAX_REGIONS,
                local_routing@.len() == i,
                forall|j: int| 0 <= j < i ==> #[trigger] local_routing@[j] == NO_PATH,
            decreases MAX_REGIONS * MAX_REGIONS - i,
        {
            local_routing.push(NO_PATH);
            i = i + 1;
        }
        let mut neighbor_connectivity: Vec<Option<usize>> = Vec::new();
        let mut i: usize = 0;
        while i < MAX_ISLANDS * 8
            invariant
                i <= MAX_ISLANDS * 8,
                neighbor_connectivity@.len() == i,
                forall|j: int| 0 <= j < i ==> #[trigger] neighbor_connectivity@[j] is None,
            decreases MAX_ISLANDS * 8 - i,
        {
            neighbor_connectivity.push(None);
            i = i + 1;
        }
        Cluster {
            id,
            regions,
            region_count: 0,
            islands,
            island_count: 0,
            local_routing,
            neighbor_connectivity,
        }
    }

    /// Routing entry from region `i` to region `j`.
    pub fn route(&self, i: usize, j: usize) -> (r: u8)
        requires
            self.wf(),
            i < MAX_REGIONS,
            j < MAX_REGIONS,
        ensures
            r == self.route_spec(i as int, j as int),
    {
        self.local_routing[i * MAX_REGIONS + j]
    }

    /// Portal of island `i` in direction `d`.
    pub fn neighbor_portal(&self, i: usize, d: usize) -> (r: Option<usize>)
        requires
            self.wf(),
            i < MAX_ISLANDS,
            d < 8,
        ensures
            r == self.neighbor_spec(i as int, d as int),
    {
        self.neighbor_connectivity[i * 8 + d]
    }
}

/// The portal record the builders append for a cell of the grid.
pub open spec fn portal_at(
    id: int,
    node: Node,
    range_min: Node,
    range_max: Node,
    cluster: (usize, usize),
    ff: &FlowField,
) -> Portal {
    Portal {
        id: id as usize,
        node,
        range_min,
        range_max,
        cluster,
        world_pos: ff.cell_center_spec(node.x as int, node.y as int),
    }
}

/// What a graph must satisfy for the portal builders to append a pair.
pub open spec fn can_add_portal_pair(g: &HierarchicalGraph, ff: &FlowField) -> bool {
    &&& g.portals_wf()
    &&& g.next_portal_id + 2 <= usize::MAX
    &&& ff.geometry_ok()
}

/// The graph after two portals were appended and joined both ways at `cost`,
/// all else unchanged.
pub open spec fn appended_pair(
    old_g: &HierarchicalGraph,
    new_g: &HierarchicalGraph,
    p1: Portal,
    p2: Portal,
    cost: i64,
) -> bool {
    let n = old_g.next_portal_id as int;
    &&& new_g.portals_wf()
    &&& new_g.next_portal_id == n + 2
    &&& new_g.portals@ == old_g.portals@.push(p1).push(p2)
    &&& new_g.portal_connections@.len() == n + 2
    &&& forall|i: int| 0 <= i < n ==> #[trigger] new_g.portal_connections@[i]@ == old_g.portal_connections@[i]@
    &&& new_g.portal_connections@[n]@ == seq![((n + 1) as usize, FixedNum { bits: cost })]
    &&& new_g.portal_connections@[n + 1]@ == seq![(n as usize, FixedNum { bits: cost })]
    &&& new_g.same_except_portals(old_g)
}

/// Appends the two sides of a crossing of the vertical border between
/// columns `x1` and `x2`, over rows `y_start..=y_end`: one portal in cluster
/// `(c1x, c1y)` at column `x1`, one in `(c2x, c2y)` at column `x2`, both at the
/// middle row, joined both ways at cost 1.
pub fn create_portal_vertical(
    graph: &mut HierarchicalGraph,
    x1: usize,
    x2: usize,
    y_start: usize,
    y_end: usize,
    c1x: usize,
    c1y: usize,
    c2x: usize,
    c2y: usize,
    flow_field: &FlowField,
)
    requires
        can_add_portal_pair(old(graph), flow_field),
        y_start <= y_end < flow_field.height,
        x1 < flow_field.width,
        x2 < flow_field.width,
    ensures
        ({
            let n = old(graph).next_portal_id as int;
            let mid = (y_start + y_end) / 2;
            appended_pair(
                old(graph),
                final(graph),
                portal_at(n, Node { x: x1, y: mid as usize }, Node { x: x1, y: y_start }, Node { x: x1, y: y_end }, (c1x, c1y), flow_field),
                portal_at(n + 1, Node { x: x2, y: mid as usize }, Node { x: x2, y: y_start }, Node { x: x2, y: y_end }, (c2x, c2y), flow_field),
                STRAIGHT_PORTAL_COST_BITS,
            )
        }),
{
    let mid_y = y_start + (y_end - y_start) / 2;
    assert(mid_y == (y_start + y_end) / 2);
    let p1 = Portal {
        id: graph.next_portal_id,
        node: Node { x: x1, y: mid_y },
        range_min: Node { x: x1, y: y_start },
        range_max: Node { x: x1, y: y_end },
        cluster: (c1x, c1y),
        world_pos: flow_field.grid_to_world(x1, mid_y),
    };
    let p2 = Portal {
        id: graph.next_portal_id + 1,
        node: Node { x: x2, y: mid_y },
        range_min: Node { x: x2, y: y_start },
        range_max: Node { x: x2, y: y_end },
        cluster: (c2x, c2y),
        world_pos: flow_field.grid_to_world(x2, mid_y),
    };
    graph.add_portal_pair(p1, p2, FixedNum { bits: STRAIGHT_PORTAL_COST_BITS });
}

/// Appends the two sides of a crossing of the horizontal border between
/// rows `y1` and `y2`, over columns `x_start..=x_end`: one portal in cluster
/// `(c1x, c1y)` at row `y1`, one in `(c2x, c2y)` at row `y2`, both at the
/// middle column, joined both ways at cost 1.
pub fn create_portal_horizontal(
    graph: &mut HierarchicalGraph,
    x_start: usize,
    x_end: usize,
    y1: usize,
    y2: usize,
    c1x: usize,
    c1y: usize,
    c2x: usize,
    c2y: usize,
    flow_field: &FlowField,
)
    requires
        can_add_portal_pair(old(graph), flow_field),
        x_start <= x_end < flow_field.width,
        y1 < flow_field.height,
        y2 < flow_field.height,
    ensures
        ({
            let n = old(graph).next_portal_id as int;
            let mid = (x_start + x_end) / 2;
            appended_pair(
                old(graph),
                final(graph),
                portal_at(n, Node { x: mid as usize, y: y1 }, Node { x: x_start, y: y1 }, Node { x: x_end, y: y1 }, (c1x, c1y), flow_field),
                portal_at(n + 1, Node { x: mid as usize, y: y2 }, Node { x: x_start, y: y2 }, Node { x: x_end, y: y2 }, (c2x, c2y), flow_field),
                STRAIGHT_PORTAL_COST_BITS,
            )
        }),
{
    let mid_x = x_start + (x_end - x_start) / 2;
    assert(mid_x == (x_start + x_end) / 2);
    let p1 = Portal {
        id: graph.next_portal_id,
        node: Node { x: mid_x, y: y1 },
        range_min: Node { x: x_start, y: y1 },
        range_max: Node { x: x_end, y: y1 },
        cluster: (c1x, c1y),
        world_pos: flow_field.grid_to_world(mid_x, y1),
    };
    let p2 = Portal {
        id: graph.next_portal_id + 1,
        node: Node { x: mid_x, y: y2 },
        range_min: Node { x: x_start, y: y2 },
        range_max: Node { x: x_end, y: y2 },
        cluster: (c2x, c2y),
        world_pos: flow_field.grid_to_world(mid_x, y2),
    };
    graph.add_portal_pair(p1, p2, FixedNum { bits: STRAIGHT_PORTAL_COST_BITS });
}

/// Appends the two sides of a crossing through a corner shared by clusters
/// `(c1x, c1y)` and `(c2x, c2y)`: single-cell portals at `(x1, y1)` and
/// `(x2, y2)`, joined both ways at cost 1.414.
pub fn create_portal_diagonal(
    graph: &mut HierarchicalGraph,
    x1: usize,
    y1: usize,
    c1x: usize,
    c1y: usize,
    x2: usize,
    y2: usize,
    c2x: usize,
    c2y: usize,
    flow_field: &FlowField,
)
    requires
        can_add_portal_pair(old(graph), flow_field),
        x1 < flow_field.width,
        y1 < flow_field.height,
        x2 < flow_field.width,
        y2 < flow_field.height,
    ensures
        ({
            let n = old(graph).next_portal_id as int;
            appended_pair(
                old(graph),
                final(graph),
                portal_at(n, Node { x: x1, y: y1 }, Node { x: x1, y: y1 }, Node { x: x1, y: y1 }, (c1x, c1y), flow_field),
                portal_at(n + 1, Node { x: x2, y: y2 }, Node { x: x2, y: y2 }, Node { x: x2, y: y2 }, (c2x, c2y), flow_field),
                DIAGONAL_PORTAL_COST_BITS,
            )
        }),
{
    let p1 = Portal {
        id: graph.next_portal_id,
        node: Node { x: x1, y: y1 },
        range_min: Node { x: x1, y: y1 },
        range_max: Node { x: x1, y: y1 },
        cluster: (c1x, c1y),
        world_pos: flow_field.grid_to_world(x1, y1),
    };
    let p2 = Portal {
        id: graph.next_portal_id + 1,
        node: Node { x: x2, y: y2 },
        range_min: Node { x: x2, y: y2 },
        range_max: Node { x: x2, y: y2 },
        cluster: (c2x, c2y),
        world_pos: flow_field.grid_to_world(x2, y2),
    };
    graph.add_portal_pair(p1, p2, FixedNum { bits: DIAGONAL_PORTAL_COST_BITS });
}

} // verus!
