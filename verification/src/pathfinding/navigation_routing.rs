//! Flat routing arenas for navigation: island-to-island first portals and
//! region-to-region next regions, addressed by arena indices.
use vstd::prelude::*;
use crate::pathfinding::types::{RegionId, IslandId, MAX_REGIONS, MAX_ISLANDS};

verus! {

/// Table entry meaning that no island route exists.
pub const NO_ROUTE: usize = usize::MAX;

/// Table entry meaning that no region route exists.
pub const NO_REGION: u8 = 255;

/// Index of a cluster in the row-major cluster arena.
#[derive(Clone, Copy, Debug, PartialEq, Eq, Structural, Hash)]
pub struct ClusterArenaIdx(pub u32);

/// Index of a region in the region arena: `cluster * MAX_REGIONS + local`.
#[derive(Clone, Copy, Debug, PartialEq, Eq, Structural, Hash)]
pub struct RegionArenaIdx(pub u32);

/// Index of an island in the island arena: `cluster * MAX_ISLANDS + local`.
#[derive(Clone, Copy, Debug, PartialEq, Eq, Structural, Hash)]
pub struct IslandArenaIdx(pub u32);

/// Index of a region within its cluster.
#[derive(Clone, Copy, Debug, PartialEq, Eq, Structural, Hash)]
pub struct LocalRegionId(pub u8);

impl ClusterArenaIdx {
    /// Arena index of cluster `(cx, cy)` in a grid `clusters_x` clusters wide.
    pub fn from_coords(cx: usize, cy: usize, clusters_x: usize) -> (r: ClusterArenaIdx)
        requires
            cy * clusters_x + cx <= u32::MAX,
        ensures
            r.0 == cy * clusters_x + cx,
    {
        proof {
            assert(cy * clusters_x <= cy * clusters_x + cx);
        }
        ClusterArenaIdx((cy * clusters_x + cx) as u32)
    }
}

impl RegionArenaIdx {
    /// Arena index of region `local` of cluster `cluster`.
    pub fn from_cluster_and_local(cluster: ClusterArenaIdx, local: RegionId) -> (r: RegionArenaIdx)
        requires
            cluster.0 * MAX_REGIONS + local.0 <= u32::MAX,
        ensures
            r.0 == cluster.0 * MAX_REGIONS + local.0,
    {
        RegionArenaIdx(cluster.0 * (MAX_REGIONS as u32) + local.0 as u32)
    }
}

impl IslandArenaIdx {
    /// Arena index of island `local` of cluster `cluster`.
    pub fn from_cluster_and_local(cluster: ClusterArenaIdx, local: IslandId) -> (r: IslandArenaIdx)
        requires
            cluster.0 * MAX_ISLANDS + local.0 <= u32::MAX,
        ensures
            r.0 == cluster.0 * MAX_ISLANDS + local.0,
    {
        IslandArenaIdx(cluster.0 * (MAX_ISLANDS as u32) + local.0 as u32)
    }
}

/// First portals between islands: entry `start * capacity + goal`.
pub struct IslandRoutingArena {
    routing: Vec<usize>,
    total_island_capacity: usize,
}

impl IslandRoutingArena {
    /// Entries of the table.
    pub closed spec fn entries(&self) -> Seq<usize> {
        self.routing@
    }

    /// Number of island slots: `MAX_ISLANDS` per cluster.
    pub closed spec fn capacity(&self) -> nat {
        self.total_island_capacity as nat
    }

    /// Position of the entry from `start` to `goal`.
    pub open spec fn slot(&self, start: IslandArenaIdx, goal: IslandArenaIdx) -> int {
        start.0 * self.capacity() + goal.0
    }

    /// The first portal recorded from `start` to `goal`, if any.
    pub open spec fn route(&self, start: IslandArenaIdx, goal: IslandArenaIdx) -> Option<usize> {
        let i = self.slot(start, goal);
        if i < self.entries().len() && self.entries()[i] != NO_ROUTE {
            Some(self.entries()[i])
        } else {
            None
        }
    }

    /// The table holds one entry per ordered pair of island slots.
    pub open spec fn wf(&self) -> bool {
        &&& self.entries().len() == self.capacity() * self.capacity()
        &&& self.capacity() * self.capacity() <= usize::MAX
    }

    /// A table for `num_clusters` clusters with no routes.
    pub fn new(num_clusters: usize) -> (r: IslandRoutingArena)
        requires
            num_clusters * MAX_ISLANDS * (num_clusters * MAX_ISLANDS) <= usize::MAX,
        ensures
            r.wf(),
            r.capacity() == num_clusters * MAX_ISLANDS,
            r.entries().len() == r.capacity() * r.capacity(),
            forall|i: int| 0 <= i < r.entries().len() ==> #[trigger] r.entries()[i] == NO_ROUTE,
    {
        proof {
            assert(num_clusters * MAX_ISLANDS <= usize::MAX) by (nonlinear_arith)
                requires
                    num_clusters * MAX_ISLANDS * (num_clusters * MAX_ISLANDS) <= usize::MAX,
            ;
        }
        let total_island_capacity = num_clusters * MAX_ISLANDS;
        let total_entries = total_island_capacity * total_island_capacity;
        let mut routing: Vec<usize> = Vec::new();
        let mut i: usize = 0;
        while i < total_entries
            invariant
                i <= total_entries,
                routing@.len() == i,
                forall|j: int| 0 <= j < i ==> #[trigger] routing@[j] == NO_ROUTE,
            decreases total_entries - i,
        {
            routing.push(NO_ROUTE);
            i = i + 1;
        }
        IslandRoutingArena { routing, total_island_capacity }
    }

    /// Number of island slots.
    pub fn total_island_capacity(&self) -> (r: usize)
        ensures
            r == self.capacity(),
    {
        self.total_island_capacity
    }

    /// The first portal to take from island `start_island` toward island
    /// `goal_island`, or `None` when no route is recorded.
    pub fn find_next_portal(&self, start_island: IslandArenaIdx, goal_island: IslandArenaIdx) -> (r: Option<usize>)
        requires
            self.slot(start_island, goal_island) <= usize::MAX,
        ensures
            r == self.route(start_island, goal_island),
    {
        proof {
            assert(start_island.0 * self.capacity() <= self.slot(start_island, goal_island));
        }
        let idx = start_island.0 as usize * self.total_island_capacity + goal_island.0 as usize;
        if idx < self.routing.len() {
            let portal_id = self.routing[idx];
            if portal_id == NO_ROUTE {
                None
            } else {
                Some(portal_id)
            }
        } else {
            None
        }
    }

    /// Records `portal_id` as the first portal from `start_island` toward
    /// `goal_island`; does nothing where that entry lies outside the table.
    pub fn set_route(&mut self, start_island: IslandArenaIdx, goal_island: IslandArenaIdx, portal_id: usize)
        requires
            old(self).slot(start_island, goal_island) <= usize::MAX,
        ensures
            final(self).capacity() == old(self).capacity(),
            final(self).entries() == if old(self).slot(start_island, goal_island) < old(self).entries().len() {
                old(self).entries().update(old(self).slot(start_island, goal_island), portal_id)
            } else {
                old(self).entries()
            },
            old(self).wf() ==> final(self).wf(),
    {
        proof {
            assert(start_island.0 * self.capacity() <= self.slot(start_island, goal_island));
        }
        let idx = start_island.0 as usize * self.total_island_capacity + goal_island.0 as usize;
        if idx < self.routing.len() {
            self.routing.set(idx, portal_id);
        }
    }
}

/// Next regions within clusters: entry
/// `((start_cluster * n + end_cluster) * MAX_REGIONS + start_region) * MAX_REGIONS + end_region`.
pub struct RegionRoutingArena {
    routing: Vec<u8>,
    num_clusters: usize,
}

impl RegionRoutingArena {
    /// Entries of the table.
    pub closed spec fn entries(&self) -> Seq<u8> {
        self.routing@
    }

    /// Number of clusters the table was made for.
    pub closed spec fn clusters(&self) -> nat {
        self.num_clusters as nat
    }

    /// Position of the entry for the given clusters and regions.
    pub open spec fn slot(&self, sc: ClusterArenaIdx, ec: ClusterArenaIdx, sr: LocalRegionId, er: LocalRegionId) -> int {
        sc.0 * (self.clusters() * MAX_REGIONS * MAX_REGIONS) + ec.0 * (MAX_REGIONS * MAX_REGIONS) + sr.0 * MAX_REGIONS + er.0
    }

    /// The next region recorded on the way from region `sr` of cluster `sc`
    /// to region `er` of cluster `ec`, if any.
    pub open spec fn next_region(&self, sc: ClusterArenaIdx, ec: ClusterArenaIdx, sr: LocalRegionId, er: LocalRegionId) -> Option<LocalRegionId> {
        let i = self.slot(sc, ec, sr, er);
        if i < self.entries().len() && self.entries()[i] != NO_REGION {
            Some(LocalRegionId(self.entries()[i]))
        } else {
            None
        }
    }

    /// The table holds one entry per pair of clusters and pair of regions.
    pub open spec fn wf(&self) -> bool {
        &&& self.entries().len() == self.clusters() * self.clusters() * MAX_REGIONS * MAX_REGIONS
        &&& self.clusters() * self.clusters() * MAX_REGIONS * MAX_REGIONS <= usize::MAX
    }

    /// A table for `num_clusters` clusters with no routes.
    pub fn new(num_clusters: usize) -> (r: RegionRoutingArena)
        requires
            num_clusters * num_clusters * MAX_REGIONS * MAX_REGIONS <= usize::MAX,
        ensures
            r.wf(),
            r.clusters() == num_clusters,
            r.entries().len() == num_clusters * num_clusters * MAX_REGIONS * MAX_REGIONS,
            forall|i: int| 0 <= i < r.entries().len() ==> #[trigger] r.entries()[i] == NO_REGION,
    {
        proof {
            assert(num_clusters * num_clusters <= num_clusters * num_clusters * MAX_REGIONS) by (nonlinear_arith);
            assert(num_clusters * num_clusters * MAX_REGIONS <= num_clusters * num_clusters * MAX_REGIONS * MAX_REGIONS) by (nonlinear_arith);
        }
        let total_entries = num_clusters * num_clusters * MAX_REGIONS * MAX_REGIONS;
        let mut routing: Vec<u8> = Vec::new();
        let mut i: usize = 0;
        while i < total_entries
            invariant
                i <= total_entries,
                routing@.len() == i,
                forall|j: int| 0 <= j < i ==> #[trigger] routing@[j] == NO_REGION,
            decreases total_entries - i,
        {
            routing.push(NO_REGION);
            i = i + 1;
        }
        RegionRoutingArena { routing, num_clusters }
    }

    fn index(&self, sc: ClusterArenaIdx, ec: ClusterArenaIdx, sr: LocalRegionId, er: LocalRegionId) -> (r: usize)
        requires
            self.wf(),
            self.slot(sc, ec, sr, er) <= usize::MAX,
        ensures
            r == self.slot(sc, ec, sr, er),
    {
        let n = self.num_clusters;
        proof {
            assert(n * MAX_REGIONS * MAX_REGIONS <= usize::MAX) by (nonlinear_arith)
                requires
                    n * n * MAX_REGIONS * MAX_REGIONS <= usize::MAX,
            ;
            assert(0 <= sc.0 * (n * MAX_REGIONS * MAX_REGIONS)) by (nonlinear_arith);
            assert(n * MAX_REGIONS * MAX_REGIONS <= sc.0 * (n * MAX_REGIONS * MAX_REGIONS) || sc.0 == 0) by (nonlinear_arith);
            assert(n * MAX_REGIONS <= n * MAX_REGIONS * MAX_REGIONS) by (nonlinear_arith);
            assert(n <= n * MAX_REGIONS) by (nonlinear_arith);
            if sc.0 == 0 {
                assert(ec.0 * (MAX_REGIONS * MAX_REGIONS) <= self.slot(sc, ec, sr, er));
            }
        }
        let a = (sc.0 as usize) * (n * MAX_REGIONS * MAX_REGIONS);
        let b = (ec.0 as usize) * (MAX_REGIONS * MAX_REGIONS);
        let c = (sr.0 as usize) * MAX_REGIONS;
        a + b + c + er.0 as usize
    }

    /// The next region on the way from region `start_region` of cluster
    /// `start_cluster` to region `end_region` of cluster `end_cluster`, or
    /// `None` when no route is recorded.
    pub fn get_next_region(
        &self,
        start_cluster: ClusterArenaIdx,
        end_cluster: ClusterArenaIdx,
        start_region: LocalRegionId,
        end_region: LocalRegionId,
    ) -> (r: Option<LocalRegionId>)
        requires
            self.wf(),
            self.slot(start_cluster, end_cluster, start_region, end_region) <= usize::MAX,
        ensures
            r == self.next_region(start_cluster, end_cluster, start_region, end_region),
    {
        let idx = self.index(start_cluster, end_cluster, start_region, end_region);
        if idx < self.routing.len() {
            let next_region = self.routing[idx];
            if next_region == NO_REGION {
                None
            } else {
                Some(LocalRegionId(next_region))
            }
        } else {
            None
        }
    }

    /// Records `next_region` for the given clusters and regions; does
    /// nothing where that entry lies outside the table.
    pub fn set_route(
        &mut self,
        start_cluster: ClusterArenaIdx,
        end_cluster: ClusterArenaIdx,
        start_region: LocalRegionId,
        end_region: LocalRegionId,
        next_region: LocalRegionId,
    )
        requires
            old(self).wf(),
            old(self).slot(start_cluster, end_cluster, start_region, end_region) <= usize::MAX,
        ensures
            final(self).clusters() == old(self).clusters(),
            final(self).entries() == if old(self).slot(start_cluster, end_cluster, start_region, end_region) < old(
                self,
            ).entries().len() {
                old(self).entries().update(old(self).slot(start_cluster, end_cluster, start_region, end_region), next_region.0)
            } else {
                old(self).entries()
            },
            final(self).wf(),
    {
        let idx = self.index(start_cluster, end_cluster, start_region, end_region);
        if idx < self.routing.len() {
            self.routing.set(idx, next_region.0);
        }
    }
}

/// The island and region routing tables together.
pub struct NavigationRouting {
    pub island_routing: IslandRoutingArena,
    pub region_routing: RegionRoutingArena,
}

impl NavigationRouting {
    /// Empty tables for `num_clusters` clusters.
    pub fn new(num_clusters: usize) -> (r: NavigationRouting)
        requires
            num_clusters * num_clusters * MAX_REGIONS * MAX_REGIONS <= usize::MAX,
        ensures
            r.island_routing.wf(),
            r.region_routing.wf(),
            r.island_routing.capacity() == num_clusters * MAX_ISLANDS,
            r.region_routing.clusters() == num_clusters,
            forall|i: int| 0 <= i < r.island_routing.entries().len() ==> #[trigger] r.island_routing.entries()[i] == NO_ROUTE,
            forall|i: int| 0 <= i < r.region_routing.entries().len() ==> #[trigger] r.region_routing.entries()[i] == NO_REGION,
    {
        proof {
            assert(num_clusters * MAX_ISLANDS * (num_clusters * MAX_ISLANDS) <= num_clusters * num_clusters * MAX_REGIONS * MAX_REGIONS) by (nonlinear_arith);
        }
        NavigationRouting { island_routing: IslandRoutingArena::new(num_clusters), region_routing: RegionRoutingArena::new(num_clusters) }
    }

    /// Whether the island table is sized for `num_clusters` clusters.
    pub fn is_sized_correctly(&self, num_clusters: usize) -> (r: bool)
        requires
            num_clusters * MAX_ISLANDS <= usize::MAX,
        ensures
            r == (self.island_routing.capacity() == num_clusters * MAX_ISLANDS),
    {
        let required_capacity = num_clusters * MAX_ISLANDS;
        self.island_routing.total_island_capacity() == required_capacity
    }

    /// Replaces both tables with empty ones for `num_clusters` clusters.
    pub fn resize(&mut self, num_clusters: usize)
        requires
            num_clusters * num_clusters * MAX_REGIONS * MAX_REGIONS <= usize::MAX,
        ensures
            final(self).island_routing.wf(),
            final(self).region_routing.wf(),
            final(self).island_routing.capacity() == num_clusters * MAX_ISLANDS,
            final(self).region_routing.clusters() == num_clusters,
            forall|i: int| 0 <= i < final(self).island_routing.entries().len() ==> #[trigger] final(self).island_routing.entries()[i] == NO_ROUTE,
            forall|i: int| 0 <= i < final(self).region_routing.entries().len() ==> #[trigger] final(self).region_routing.entries()[i] == NO_REGION,
    {
        *self = NavigationRouting::new(num_clusters);
    }
}

impl Default for NavigationRouting {
    /// Empty tables for a single cluster.
    fn default() -> (r: NavigationRouting)
        ensures
            r.island_routing.capacity() == MAX_ISLANDS,
            r.region_routing.clusters() == 1,
    {
        NavigationRouting::new(1)
    }
}

} // verus!
