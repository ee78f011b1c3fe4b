//! The hierarchical graph: clusters in a row-major arena, the portals that
//! join them, and the island-to-island routing table.
use vstd::prelude::*;
use crate::fixed::FixedNum;
use crate::pathfinding::types::{Portal, IslandId, ClusterIslandId, MAX_ISLANDS, MAX_REGIONS};
use crate::pathfinding::cluster::{Cluster, appended_pair};

verus! {

/// Routing-table entry meaning that no route exists.
pub const NO_ROUTE: usize = usize::MAX;

/// Linear index of a (cluster, island) pair in a graph `cols` clusters wide.
pub open spec fn linear_island(cols: int, ci: ClusterIslandId) -> int {
    (ci.cluster.1 * cols + ci.cluster.0) * MAX_ISLANDS + ci.island.0
}

pub struct HierarchicalGraph {
    pub cluster_cols: usize,
    pub cluster_rows: usize,
    pub initialized: bool,
    /// Clusters in row-major order: cluster `(x, y)` at `y * cluster_cols + x`.
    pub cluster_storage: Vec<Option<Cluster>>,
    /// First portal from source island to destination island, at
    /// `source * total_island_capacity + destination`, or `NO_ROUTE`.
    pub island_routing_storage: Vec<usize>,
    /// `cluster_cols * cluster_rows * MAX_ISLANDS`.
    pub total_island_capacity: usize,
    /// Portal `i` sits at position `i`.
    pub portals: Vec<Portal>,
    pub next_portal_id: usize,
    /// Island of its own cluster that reaches each portal, where known.
    pub portal_island_map: Vec<Option<IslandId>>,
    /// Portals each portal leads to, with the cost of the crossing.
    pub portal_connections: Vec<Vec<(usize, FixedNum)>>,
}

impl HierarchicalGraph {
    /// Portal `i` is stored at position `i`, and each has a connection list.
    pub open spec fn portals_wf(&self) -> bool {
        &&& self.portals@.len() == self.next_portal_id
        &&& self.portal_connections@.len() == self.next_portal_id
        &&& forall|i: int| 0 <= i < self.portals@.len() ==> (#[trigger] self.portals@[i]).id == i
    }

    /// The arenas have the sizes the cluster grid asks for.
    pub open spec fn arena_wf(&self) -> bool {
        &&& self.cluster_storage@.len() == self.cluster_cols * self.cluster_rows
        &&& self.total_island_capacity == self.cluster_cols * self.cluster_rows * MAX_ISLANDS
        &&& self.island_routing_storage@.len() == self.total_island_capacity * self.total_island_capacity
        &&& self.total_island_capacity * self.total_island_capacity <= usize::MAX
    }

    /// Every stored cluster is well formed and knows its own coordinates.
    pub open spec fn clusters_wf(&self) -> bool {
        forall|i: int|
            0 <= i < self.cluster_storage@.len() && (#[trigger] self.cluster_storage@[i]) is Some ==> {
                let c = self.cluster_storage@[i]->0;
                &&& c.wf()
                &&& c.id.1 * self.cluster_cols + c.id.0 == i
                &&& c.id.0 < self.cluster_cols
            }
    }

    pub open spec fn wf(&self) -> bool {
        &&& self.portals_wf()
        &&& self.arena_wf()
        &&& self.clusters_wf()
    }

    /// Everything but the portal arenas is as in `other`.
    pub open spec fn same_except_portals(&self, other: &HierarchicalGraph) -> bool {
        &&& self.cluster_cols == other.cluster_cols
        &&& self.cluster_rows == other.cluster_rows
        &&& self.initialized == other.initialized
        &&& self.cluster_storage@ == other.cluster_storage@
        &&& self.island_routing_storage@ == other.island_routing_storage@
        &&& self.total_island_capacity == other.total_island_capacity
        &&& self.portal_island_map@ == other.portal_island_map@
    }

    /// The cluster at `(cx, cy)`, if the coordinates lie in the grid and it was set.
    pub open spec fn cluster_at(&self, cx: int, cy: int) -> Option<Cluster> {
        if 0 <= cx < self.cluster_cols && 0 <= cy < self.cluster_rows {
            self.cluster_storage@[cy * self.cluster_cols + cx]
        } else {
            None
        }
    }

    /// Index of the routing entry from `s` to `d`.
    pub open spec fn route_index(&self, s: ClusterIslandId, d: ClusterIslandId) -> int {
        linear_island(self.cluster_cols as int, s) * self.total_island_capacity + linear_island(
            self.cluster_cols as int,
            d,
        )
    }

    /// Whether the route index of `s` and `d` can be computed without overflow.
    pub open spec fn route_index_fits(&self, s: ClusterIslandId, d: ClusterIslandId) -> bool {
        &&& linear_island(self.cluster_cols as int, s) <= usize::MAX
        &&& linear_island(self.cluster_cols as int, d) <= usize::MAX
        &&& self.route_index(s, d) <= usize::MAX
    }

    /// Routing entry from `s` to `d` as the table stores it.
    pub open spec fn island_route_spec(&self, s: ClusterIslandId, d: ClusterIslandId) -> Option<usize> {
        let i = self.route_index(s, d);
        if i < self.island_routing_storage@.len() && self.island_routing_storage@[i] != NO_ROUTE {
            Some(self.island_routing_storage@[i])
        } else {
            None
        }
    }

    /// An empty graph over `cluster_cols` by `cluster_rows` clusters: no
    /// clusters set, no routes, no portals.
    pub fn new(cluster_cols: usize, cluster_rows: usize) -> (r: HierarchicalGraph)
        requires
            cluster_cols * cluster_rows * MAX_ISLANDS * (cluster_cols * cluster_rows * MAX_ISLANDS)
                <= usize::MAX,
        ensures
            r.wf(),
            r.cluster_cols == cluster_cols,
            r.cluster_rows == cluster_rows,
            !r.initialized,
            forall|i: int| 0 <= i < r.cluster_storage@.len() ==> #[trigger] r.cluster_storage@[i] is None,
            forall|i: int|
                0 <= i < r.island_routing_storage@.len() ==> #[trigger] r.island_routing_storage@[i]
                    == NO_ROUTE,
            r.portals@.len() == 0,
            r.portal_island_map@.len() == 0,
    {
        proof {
            assert(cluster_cols * cluster_rows <= usize::MAX) by (nonlinear_arith)
                requires
                    cluster_cols * cluster_rows * MAX_ISLANDS * (cluster_cols * cluster_rows * MAX_ISLANDS)
                        <= usize::MAX,
            ;
        }
        let total_clusters = cluster_cols * cluster_rows;
        proof {
            assert(total_clusters * MAX_ISLANDS <= usize::MAX) by (nonlinear_arith)
                requires
                    total_clusters * MAX_ISLANDS * (total_clusters * MAX_ISLANDS) <= usize::MAX,
                    total_clusters >= 0,
            ;
        }
        let total_island_capacity = total_clusters * MAX_ISLANDS;
        let table_size = total_island_capacity * total_island_capacity;
        let mut cluster_storage: Vec<Option<Cluster>> = Vec::new();
        let mut i: usize = 0;
        while i < total_clusters
            invariant
                i <= total_clusters,
                cluster_storage@.len() == i,
                forall|j: int| 0 <= j < i ==> #[trigger] cluster_storage@[j] is None,
            decreases total_clusters - i,
        {
            cluster_storage.push(None);
            i = i + 1;
        }
        let mut island_routing_storage: Vec<usize> = Vec::new();
        let mut i: usize = 0;
        while i < table_size
            invariant
                i <= table_size,
                island_routing_storage@.len() == i,
                forall|j: int| 0 <= j < i ==> #[trigger] island_routing_storage@[j] == NO_ROUTE,
            decreases table_size - i,
        {
            island_routing_storage.push(NO_ROUTE);
            i = i + 1;
        }
        HierarchicalGraph {
            cluster_cols,
            cluster_rows,
            initialized: false,
            cluster_storage,
            island_routing_storage,
            total_island_capacity,
            portals: Vec::new(),
            next_portal_id: 0,
            portal_island_map: Vec::new(),
            portal_connections: Vec::new(),
        }
    }

    /// The cluster at `(cx, cy)`, or `None` outside the grid or where none was set.
    pub fn get_cluster(&self, cx: usize, cy: usize) -> (r: Option<&Cluster>)
        requires
            self.arena_wf(),
        ensures
            r is Some <==> self.cluster_at(cx as int, cy as int) is Some,
            r is Some ==> self.cluster_at(cx as int, cy as int) == Some(*r->0),
    {
        if cx >= self.cluster_cols || cy >= self.cluster_rows {
            return None;
        }
        proof {
            assert(cy * self.cluster_cols + cx < self.cluster_cols * self.cluster_rows) by (nonlinear_arith)
                requires
                    cx < self.cluster_cols,
                    cy < self.cluster_rows,
            ;
        }
        let idx = cy * self.cluster_cols + cx;
        match &self.cluster_storage[idx] {
            Some(c) => Some(c),
            None => None,
        }
    }

    /// Stores `cluster` at `(cx, cy)`; does nothing outside the grid.
    pub fn set_cluster(&mut self, cx: usize, cy: usize, cluster: Cluster)
        requires
            old(self).arena_wf(),
        ensures
            final(self).arena_wf(),
            final(self).portals@ == old(self).portals@,
            final(self).portal_connections@ == old(self).portal_connections@,
            final(self).next_portal_id == old(self).next_portal_id,
            final(self).portal_island_map@ == old(self).portal_island_map@,
            final(self).island_routing_storage@ == old(self).island_routing_storage@,
            final(self).cluster_cols == old(self).cluster_cols,
            final(self).cluster_rows == old(self).cluster_rows,
            final(self).initialized == old(self).initialized,
            final(self).total_island_capacity == old(self).total_island_capacity,
            final(self).cluster_storage@ == if cx < old(self).cluster_cols && cy < old(
                self,
            ).cluster_rows {
                old(self).cluster_storage@.update(cy * old(self).cluster_cols + cx, Some(cluster))
            } else {
                old(self).cluster_storage@
            },
    {
        if cx >= self.cluster_cols || cy >= self.cluster_rows {
            return;
        }
        proof {
            assert(cy * self.cluster_cols + cx < self.cluster_cols * self.cluster_rows) by (nonlinear_arith)
                requires
                    cx < self.cluster_cols,
                    cy < self.cluster_rows,
            ;
        }
        let idx = cy * self.cluster_cols + cx;
        self.cluster_storage.set(idx, Some(cluster));
    }

    fn routing_table_index(&self, source: ClusterIslandId, dest: ClusterIslandId) -> (r: usize)
        requires
            self.route_index_fits(source, dest),
        ensures
            r == self.route_index(source, dest),
    {
        let (sx, sy) = source.cluster;
        let (dx, dy) = dest.cluster;
        proof {
            assert(sy * self.cluster_cols <= sy * self.cluster_cols + sx);
            assert(dy * self.cluster_cols <= dy * self.cluster_cols + dx);
        }
        let s = (sy * self.cluster_cols + sx) * MAX_ISLANDS + source.island.0 as usize;
        let d = (dy * self.cluster_cols + dx) * MAX_ISLANDS + dest.island.0 as usize;
        proof {
            assert(s * self.total_island_capacity <= self.route_index(source, dest));
        }
        s * self.total_island_capacity + d
    }

    /// Records `portal_id` as the first portal from `source` toward `dest`
    /// (nothing happens where the entry lies outside the table).
    pub fn set_island_route(&mut self, source: ClusterIslandId, dest: ClusterIslandId, portal_id: usize)
        requires
            old(self).route_index_fits(source, dest),
        ensures
            final(self).island_routing_storage@ == if old(self).route_index(source, dest) < old(
                self,
            ).island_routing_storage@.len() {
                old(self).island_routing_storage@.update(old(self).route_index(source, dest), portal_id)
            } else {
                old(self).island_routing_storage@
            },
            final(self).cluster_storage@ == old(self).cluster_storage@,
            final(self).portals@ == old(self).portals@,
            final(self).portal_connections@ == old(self).portal_connections@,
            final(self).portal_island_map@ == old(self).portal_island_map@,
            final(self).next_portal_id == old(self).next_portal_id,
            final(self).cluster_cols == old(self).cluster_cols,
            final(self).cluster_rows == old(self).cluster_rows,
            final(self).initialized == old(self).initialized,
            final(self).total_island_capacity == old(self).total_island_capacity,
    {
        let idx = self.routing_table_index(source, dest);
        if idx < self.island_routing_storage.len() {
            self.island_routing_storage.set(idx, portal_id);
        }
    }

    /// The first portal recorded from `source` toward `dest`, if any.
    pub fn get_island_route(&self, source: ClusterIslandId, dest: ClusterIslandId) -> (r: Option<usize>)
        requires
            self.route_index_fits(source, dest),
        ensures
            r == self.island_route_spec(source, dest),
    {
        let idx = self.routing_table_index(source, dest);
        if idx < self.island_routing_storage.len() {
            let p = self.island_routing_storage[idx];
            if p == NO_ROUTE {
                None
            } else {
                Some(p)
            }
        } else {
            None
        }
    }

    /// The portal to take from `current` toward `goal`; `None` once there.
    pub fn get_next_portal_for_island(&self, current: ClusterIslandId, goal: ClusterIslandId) -> (r: Option<usize>)
        requires
            self.route_index_fits(current, goal),
        ensures
            r == if current == goal {
                None
            } else {
                self.island_route_spec(current, goal)
            },
    {
        if current == goal {
            return None;
        }
        self.get_island_route(current, goal)
    }

    /// Clears portals, their connections and islands, clusters and routes,
    /// and marks the graph unbuilt; the arena sizes are kept.
    pub fn reset(&mut self)
        requires
            old(self).arena_wf(),
        ensures
            final(self).arena_wf(),
            final(self).portals_wf(),
            final(self).portals@.len() == 0,
            final(self).next_portal_id == 0,
            final(self).cluster_cols == old(self).cluster_cols,
            final(self).cluster_rows == old(self).cluster_rows,
            final(self).total_island_capacity == old(self).total_island_capacity,
            final(self).portal_island_map@.len() == 0,
            final(self).portal_connections@.len() == 0,
            !final(self).initialized,
            forall|i: int| 0 <= i < final(self).cluster_storage@.len() ==> #[trigger] final(self).cluster_storage@[i] is None,
            forall|i: int|
                0 <= i < final(self).island_routing_storage@.len() ==> #[trigger] final(self).island_routing_storage@[i]
                    == NO_ROUTE,
    {
        self.portals.clear();
        self.next_portal_id = 0;
        self.portal_connections.clear();
        self.portal_island_map.clear();
        let n = self.cluster_storage.len();
        let mut i: usize = 0;
        while i < n
            invariant
                i <= n,
                n == self.cluster_storage@.len(),
                self.portals@.len() == 0,
                self.portal_connections@.len() == 0,
                self.next_portal_id == 0,
                self.cluster_cols == old(self).cluster_cols,
                self.cluster_rows == old(self).cluster_rows,
                self.total_island_capacity == old(self).total_island_capacity,
                self.portal_island_map@.len() == 0,
                self.cluster_storage@.len() == old(self).cluster_storage@.len(),
                self.island_routing_storage@.len() == old(self).island_routing_storage@.len(),
                forall|j: int| 0 <= j < i ==> #[trigger] self.cluster_storage@[j] is None,
            decreases n - i,
        {
            self.cluster_storage.set(i, None);
            i = i + 1;
        }
        let m = self.island_routing_storage.len();
        let mut i: usize = 0;
        while i < m
            invariant
                i <= m,
                m == self.island_routing_storage@.len(),
                self.portals@.len() == 0,
                self.portal_connections@.len() == 0,
                self.next_portal_id == 0,
                self.cluster_cols == old(self).cluster_cols,
                self.cluster_rows == old(self).cluster_rows,
                self.total_island_capacity == old(self).total_island_capacity,
                self.portal_island_map@.len() == 0,
                self.cluster_storage@.len() == old(self).cluster_storage@.len(),
                self.island_routing_storage@.len() == old(self).island_routing_storage@.len(),
                forall|j: int| 0 <= j < self.cluster_storage@.len() ==> #[trigger] self.cluster_storage@[j] is None,
                forall|j: int| 0 <= j < i ==> #[trigger] self.island_routing_storage@[j] == NO_ROUTE,
            decreases m - i,
        {
            self.island_routing_storage.set(i, NO_ROUTE);
            i = i + 1;
        }
        self.initialized = false;
    }

    /// Appends two portals joined both ways at `cost`.
    pub fn add_portal_pair(&mut self, p1: Portal, p2: Portal, cost: FixedNum)
        requires
            old(self).portals_wf(),
            old(self).next_portal_id + 2 <= usize::MAX,
            p1.id == old(self).next_portal_id,
            p2.id == old(self).next_portal_id + 1,
        ensures
            appended_pair(old(self), final(self), p1, p2, cost.bits),
    {
        let id1 = p1.id;
        let id2 = p2.id;
        self.portals.push(p1);
        self.portals.push(p2);
        let mut c1: Vec<(usize, FixedNum)> = Vec::new();
        c1.push((id2, cost));
        let mut c2: Vec<(usize, FixedNum)> = Vec::new();
        c2.push((id1, cost));
        self.portal_connections.push(c1);
        self.portal_connections.push(c2);
        self.next_portal_id = id2 + 1;
        proof {
            let n = old(self).next_portal_id as int;
            assert forall|i: int| 0 <= i < self.portals@.len() implies (#[trigger] self.portals@[i]).id == i by {
                if i < n {
                    assert(self.portals@[i] == old(self).portals@[i]);
                }
            }
            assert forall|i: int| 0 <= i < n implies #[trigger] self.portal_connections@[i]@
                == old(self).portal_connections@[i]@ by {
                assert(self.portal_connections@[i] == old(self).portal_connections@[i]);
            }
        }
    }
}


/// Number of filled slots among the first `k` of `storage`.
pub open spec fn count_present(storage: Seq<Option<Cluster>>, k: int) -> int
    decreases k,
{
    if k <= 0 {
        0
    } else {
        count_present(storage, k - 1) + if storage[k - 1] is Some { 1int } else { 0int }
    }
}

/// Total of `region_count` (`regions`) or `island_count` over the filled
/// slots among the first `k` of `storage`.
pub open spec fn total_over(storage: Seq<Option<Cluster>>, k: int, regions: bool) -> int
    decreases k,
{
    if k <= 0 {
        0
    } else {
        total_over(storage, k - 1, regions) + match storage[k - 1] {
            Some(c) => if regions { c.region_count as int } else { c.island_count as int },
            None => 0int,
        }
    }
}

proof fn lemma_totals_bounded(storage: Seq<Option<Cluster>>, k: int)
    requires
        0 <= k <= storage.len(),
        forall|i: int| 0 <= i < storage.len() && (#[trigger] storage[i]) is Some ==> storage[i]->0.wf(),
    ensures
        0 <= count_present(storage, k) <= k,
        0 <= total_over(storage, k, true) <= k * MAX_REGIONS,
        0 <= total_over(storage, k, false) <= k * MAX_ISLANDS,
    decreases k,
{
    if k > 0 {
        lemma_totals_bounded(storage, k - 1);
    }
}

/// Counts of what a graph holds.
#[derive(Debug, Clone, Copy)]
pub struct GraphStats {
    pub cluster_count: usize,
    pub portal_count: usize,
    pub region_count: usize,
    pub island_count: usize,
    pub initialized: bool,
}

impl HierarchicalGraph {
    /// Number of clusters set.
    pub fn cluster_count(&self) -> (r: usize)
        requires
            self.wf(),
        ensures
            r == count_present(self.cluster_storage@, self.cluster_storage@.len() as int),
    {
        let mut n: usize = 0;
        let mut i: usize = 0;
        while i < self.cluster_storage.len()
            invariant
                i <= self.cluster_storage@.len(),
                n == count_present(self.cluster_storage@, i as int),
                self.clusters_wf(),
            decreases self.cluster_storage@.len() - i,
        {
            proof {
                lemma_totals_bounded(self.cluster_storage@, i as int);
            }
            if self.cluster_storage[i].is_some() {
                n = n + 1;
            }
            i = i + 1;
        }
        n
    }

    /// The clusters set, in row-major order, each with its coordinates.
    pub fn clusters_iter(&self) -> (r: Vec<((usize, usize), &Cluster)>)
        requires
            self.wf(),
            self.cluster_cols > 0,
        ensures
            r@.len() == count_present(self.cluster_storage@, self.cluster_storage@.len() as int),
            forall|k: int|
                0 <= k < r@.len() ==> {
                    let ((cx, cy), c) = #[trigger] r@[k];
                    self.cluster_at(cx as int, cy as int) == Some(*c)
                },
    {
        let mut out: Vec<((usize, usize), &Cluster)> = Vec::new();
        let mut i: usize = 0;
        while i < self.cluster_storage.len()
            invariant
                self.wf(),
                self.cluster_cols > 0,
                i <= self.cluster_storage@.len(),
                out@.len() == count_present(self.cluster_storage@, i as int),
                forall|k: int|
                    0 <= k < out@.len() ==> {
                        let ((cx, cy), c) = #[trigger] out@[k];
                        self.cluster_at(cx as int, cy as int) == Some(*c)
                    },
            decreases self.cluster_storage@.len() - i,
        {
            match &self.cluster_storage[i] {
                Some(c) => {
                    let cx = i % self.cluster_cols;
                    let cy = i / self.cluster_cols;
                    proof {
                        vstd::arithmetic::div_mod::lemma_fundamental_div_mod(i as int, self.cluster_cols as int);
                        assert(cy < self.cluster_rows) by (nonlinear_arith)
                            requires
                                i < self.cluster_cols * self.cluster_rows,
                                i == self.cluster_cols * cy + cx,
                                cx >= 0,
                                self.cluster_cols > 0,
                        ;
                        assert(cy * self.cluster_cols + cx == i) by (nonlinear_arith)
                            requires
                                i == self.cluster_cols * cy + cx,
                        ;
                    }
                    out.push(((cx, cy), c));
                },
                None => {},
            }
            i = i + 1;
        }
        out
    }

    /// How many clusters, portals, regions and islands the graph holds, and
    /// whether it was built.
    pub fn get_stats(&self) -> (r: GraphStats)
        requires
            self.wf(),
        ensures
            r.cluster_count == count_present(self.cluster_storage@, self.cluster_storage@.len() as int),
            r.portal_count == self.portals@.len(),
            r.region_count == total_over(self.cluster_storage@, self.cluster_storage@.len() as int, true),
            r.island_count == total_over(self.cluster_storage@, self.cluster_storage@.len() as int, false),
            r.initialized == self.initialized,
    {
        let n = self.cluster_storage.len();
        proof {
            let cap = self.total_island_capacity as int;
            assert(n * MAX_REGIONS <= usize::MAX) by (nonlinear_arith)
                requires
                    cap == n * MAX_ISLANDS,
                    cap * cap <= usize::MAX,
                    n >= 0,
            ;
        }
        let mut regions: usize = 0;
        let mut islands: usize = 0;
        let mut i: usize = 0;
        while i < n
            invariant
                n == self.cluster_storage@.len(),
                n * MAX_REGIONS <= usize::MAX,
                self.clusters_wf(),
                i <= n,
                regions == total_over(self.cluster_storage@, i as int, true),
                islands == total_over(self.cluster_storage@, i as int, false),
            decreases n - i,
        {
            proof {
                lemma_totals_bounded(self.cluster_storage@, i as int);
                assert(i * MAX_REGIONS + MAX_REGIONS <= n * MAX_REGIONS) by (nonlinear_arith)
                    requires
                        i < n,
                ;
            }
            match &self.cluster_storage[i] {
                Some(c) => {
                    regions = regions + c.region_count;
                    islands = islands + c.island_count;
                },
                None => {},
            }
            i = i + 1;
        }
        GraphStats {
            cluster_count: self.cluster_count(),
            portal_count: self.portals.len(),
            region_count: regions,
            island_count: islands,
            initialized: self.initialized,
        }
    }
}

impl Default for HierarchicalGraph {
    /// An empty graph over no clusters.
    fn default() -> (r: HierarchicalGraph)
        ensures
            r.wf(),
            r.cluster_cols == 0,
            r.cluster_rows == 0,
            !r.initialized,
            r.portals@.len() == 0,
    {
        HierarchicalGraph::new(0, 0)
    }
}

/// Takes the cluster out of slot `i`, leaving the slot empty.
pub(crate) fn take_slot(storage: &mut Vec<Option<Cluster>>, i: usize) -> (r: Option<Cluster>)
    requires
        i < old(storage)@.len(),
    ensures
        r == old(storage)@[i as int],
        final(storage)@ == old(storage)@.update(i as int, None),
{
    let mut tmp: Option<Cluster> = None;
    std::mem::swap(&mut tmp, &mut storage[i]);
    tmp
}

} // verus!
