//! Per-cell navigation lookup: for every grid cell, the arena indices of its
//! cluster, region and island, with copies of the clusters, regions and
//! islands in flat arenas.
use vstd::prelude::*;
use crate::fixed::{FixedNum, FixedVec2, ONE_BITS, HALF_BITS};
use crate::flow_field::FlowField;
use crate::pathfinding::types::{Region, Island, RegionId, IslandId, MAX_REGIONS, MAX_ISLANDS, CLUSTER_SIZE, NO_PATH};
use crate::pathfinding::cluster::Cluster;
use crate::pathfinding::graph::HierarchicalGraph;
use crate::pathfinding::navigation_routing::{ClusterArenaIdx, RegionArenaIdx, IslandArenaIdx};
use crate::pathfinding::region_decomposition::{get_region_id, region_lookup_spec, region_holds, corners_in_range};
use crate::pathfinding::portal_scan::clusters_across;
use crate::pathfinding::copies::{same_cluster, same_region_slot, same_island_slot};
use crate::pathfinding::island_detection::{regions_dense, island_index};
use crate::pathfinding::island_links::links_ready;
use vstd::arithmetic::div_mod::lemma_fundamental_div_mod;

verus! {

/// Arena indices of the cluster, region and island of one grid cell.
#[derive(Clone, Copy, Debug)]
pub struct NavigationCell {
    pub cluster_idx: ClusterArenaIdx,
    pub region_idx: RegionArenaIdx,
    pub island_idx: IslandArenaIdx,
}

impl Default for NavigationCell {
    /// All three indices zero.
    fn default() -> (r: NavigationCell)
        ensures
            r.cluster_idx.0 == 0,
            r.region_idx.0 == 0,
            r.island_idx.0 == 0,
    {
        NavigationCell { cluster_idx: ClusterArenaIdx(0), region_idx: RegionArenaIdx(0), island_idx: IslandArenaIdx(0) }
    }
}

/// Flat arenas of clusters (row-major), regions (`MAX_REGIONS` slots per
/// cluster) and islands (`MAX_ISLANDS` slots per cluster).
pub struct NavigationArenas {
    pub clusters: Vec<Cluster>,
    pub regions: Vec<Option<Region>>,
    pub islands: Vec<Option<Island>>,
    pub num_clusters: usize,
    pub clusters_x: usize,
    pub clusters_y: usize,
}

/// The arenas match a grid of `clusters_x` by `clusters_y` clusters.
pub open spec fn arenas_wf(a: &NavigationArenas) -> bool {
    &&& a.num_clusters == a.clusters_x * a.clusters_y
    &&& a.clusters@.len() == a.num_clusters
    &&& a.regions@.len() == a.num_clusters * MAX_REGIONS
    &&& a.islands@.len() == a.num_clusters * MAX_ISLANDS
    &&& a.num_clusters * MAX_REGIONS <= u32::MAX
    &&& forall|i: int| 0 <= i < a.clusters@.len() ==> (#[trigger] a.clusters@[i]).wf()
}

/// Sizes a lookup over a `w` by `h` grid needs to fit its indices.
pub open spec fn lookup_fits(w: int, h: int) -> bool {
    &&& w + CLUSTER_SIZE <= usize::MAX
    &&& h + CLUSTER_SIZE <= usize::MAX
    &&& clusters_across(w) * clusters_across(h) * MAX_REGIONS <= u32::MAX
}

/// `c` is an empty cluster with id `id`: no regions, no islands, no routes,
/// no portals.
pub open spec fn fresh_cluster(c: &Cluster, id: (usize, usize)) -> bool {
    &&& c.wf()
    &&& c.id == id
    &&& c.region_count == 0
    &&& c.island_count == 0
    &&& forall|i: int| 0 <= i < MAX_REGIONS ==> #[trigger] c.regions@[i] is None
    &&& forall|i: int| 0 <= i < MAX_ISLANDS ==> #[trigger] c.islands@[i] is None
    &&& forall|i: int| 0 <= i < MAX_REGIONS * MAX_REGIONS ==> #[trigger] c.local_routing@[i] == NO_PATH
    &&& forall|i: int| 0 <= i < MAX_ISLANDS * 8 ==> #[trigger] c.neighbor_connectivity@[i] is None
}

proof fn lemma_fresh_ready(c: &Cluster, id: (usize, usize))
    requires
        fresh_cluster(c, id),
    ensures
        links_ready(c),
{
    assert forall|a: int, b: int| 0 <= a < MAX_REGIONS && 0 <= b < MAX_REGIONS implies #[trigger] c.route_spec(a, b) == NO_PATH by {
        assert(0 <= a * MAX_REGIONS + b < MAX_REGIONS * MAX_REGIONS) by (nonlinear_arith)
            requires
                0 <= a < MAX_REGIONS,
                0 <= b < MAX_REGIONS,
        ;
    }
}

/// A copy of a cluster whose regions can be searched can be searched too.
proof fn lemma_copy_ready(a: &Cluster, b: &Cluster)
    requires
        same_cluster(a, b),
        links_ready(b),
    ensures
        links_ready(a),
{
    assert forall|i: int| 0 <= i < MAX_REGIONS implies ((#[trigger] a.regions@[i] is Some) <==> i < a.region_count) by {
        assert(same_region_slot(a.regions@[i], b.regions@[i]));
        assert(b.regions@[i] is Some <==> i < b.region_count);
    }
    assert forall|i: int| 0 <= i < a.region_count implies {
        let r = (#[trigger] a.regions@[i])->0;
        &&& r.id.0 == i
        &&& r.bounds.min.in_range()
        &&& r.bounds.max.in_range()
    } by {
        assert(same_region_slot(a.regions@[i], b.regions@[i]));
        assert(b.regions@[i] is Some);
    }
    assert forall|i: int| 0 <= i < a.region_count implies corners_in_range((#[trigger] a.regions@[i])->0.vertices@) by {
        assert(same_region_slot(a.regions@[i], b.regions@[i]));
        assert(b.regions@[i] is Some);
        assert(corners_in_range(b.regions@[i]->0.vertices@));
    }
    assert forall|i: int| 0 <= i < a.region_count implies #[trigger] island_index(a, i) < MAX_ISLANDS by {
        assert(same_region_slot(a.regions@[i], b.regions@[i]));
        assert(b.regions@[i] is Some);
        assert(island_index(b, i) < MAX_ISLANDS);
    }
    assert forall|i: int, j: int| 0 <= i < MAX_REGIONS && 0 <= j < MAX_REGIONS implies (#[trigger] a.route_spec(i, j) == NO_PATH
        || a.route_spec(i, j) < a.region_count) by {
        assert(a.route_spec(i, j) == b.route_spec(i, j));
    }
}

impl NavigationArenas {
    /// Arenas for a `map_width` by `map_height` grid: an empty cluster per
    /// cluster position, no regions, no islands.
    pub fn new(map_width: usize, map_height: usize) -> (r: NavigationArenas)
        requires
            lookup_fits(map_width as int, map_height as int),
        ensures
            arenas_wf(&r),
            r.clusters_x == clusters_across(map_width as int),
            r.clusters_y == clusters_across(map_height as int),
            forall|i: int| 0 <= i < r.clusters@.len() ==> fresh_cluster(#[trigger] &r.clusters@[i], ((i % r.clusters_x as int) as usize, (i / r.clusters_x as int) as usize)),
            forall|i: int| 0 <= i < r.clusters@.len() ==> links_ready(#[trigger] &r.clusters@[i]),
            forall|i: int| 0 <= i < r.regions@.len() ==> #[trigger] r.regions@[i] is None,
            forall|i: int| 0 <= i < r.islands@.len() ==> #[trigger] r.islands@[i] is None,
    {
        let clusters_x = (map_width + CLUSTER_SIZE - 1) / CLUSTER_SIZE;
        let clusters_y = (map_height + CLUSTER_SIZE - 1) / CLUSTER_SIZE;
        proof {
            assert(clusters_x * clusters_y <= clusters_x * clusters_y * MAX_REGIONS) by (nonlinear_arith);
        }
        let num_clusters = clusters_x * clusters_y;
        let mut clusters: Vec<Cluster> = Vec::new();
        let mut i: usize = 0;
        while i < num_clusters
            invariant
                i <= num_clusters,
                num_clusters == clusters_x * clusters_y,
                clusters@.len() == i,
                forall|j: int| 0 <= j < i ==> fresh_cluster(#[trigger] &clusters@[j], ((j % clusters_x as int) as usize, (j / clusters_x as int) as usize)),
                forall|j: int| 0 <= j < i ==> links_ready(#[trigger] &clusters@[j]),
            decreases num_clusters - i,
        {
            proof {
                assert(clusters_x > 0) by (nonlinear_arith)
                    requires
                        i < clusters_x * clusters_y,
                ;
            }
            let c = Cluster::new((i % clusters_x, i / clusters_x));
            proof {
                lemma_fresh_ready(&c, (i % clusters_x, i / clusters_x));
            }
            clusters.push(c);
            proof {
                assert(clusters@[i as int] == c);
            }
            i = i + 1;
        }
        let max_regions = MAX_REGIONS * num_clusters;
        let mut regions: Vec<Option<Region>> = Vec::new();
        let mut i: usize = 0;
        while i < max_regions
            invariant
                i <= max_regions,
                regions@.len() == i,
                forall|j: int| 0 <= j < i ==> #[trigger] regions@[j] is None,
            decreases max_regions - i,
        {
            regions.push(None);
            i = i + 1;
        }
        let max_islands = MAX_ISLANDS * num_clusters;
        let mut islands: Vec<Option<Island>> = Vec::new();
        let mut i: usize = 0;
        while i < max_islands
            invariant
                i <= max_islands,
                islands@.len() == i,
                forall|j: int| 0 <= j < i ==> #[trigger] islands@[j] is None,
            decreases max_islands - i,
        {
            islands.push(None);
            i = i + 1;
        }
        NavigationArenas { clusters, regions, islands, num_clusters, clusters_x, clusters_y }
    }

    /// The cluster at arena index `idx`, if there is one.
    pub fn get_cluster(&self, idx: ClusterArenaIdx) -> (r: Option<&Cluster>)
        ensures
            r is Some <==> (idx.0 as int) < self.clusters@.len(),
            r is Some ==> *r->0 == self.clusters@[idx.0 as int],
    {
        let i = idx.0 as usize;
        if i < self.clusters.len() {
            Some(&self.clusters[i])
        } else {
            None
        }
    }

    /// The region at arena index `idx`, if the slot exists and holds one.
    pub fn get_region(&self, idx: RegionArenaIdx) -> (r: Option<&Region>)
        ensures
            r is Some <==> (idx.0 as int) < self.regions@.len() && self.regions@[idx.0 as int] is Some,
            r is Some ==> Some(*r->0) == self.regions@[idx.0 as int],
    {
        let i = idx.0 as usize;
        if i < self.regions.len() {
            match &self.regions[i] {
                Some(reg) => Some(reg),
                None => None,
            }
        } else {
            None
        }
    }

    /// The island at arena index `idx`, if the slot exists and holds one.
    pub fn get_island(&self, idx: IslandArenaIdx) -> (r: Option<&Island>)
        ensures
            r is Some <==> (idx.0 as int) < self.islands@.len() && self.islands@[idx.0 as int] is Some,
            r is Some ==> Some(*r->0) == self.islands@[idx.0 as int],
    {
        let i = idx.0 as usize;
        if i < self.islands.len() {
            match &self.islands[i] {
                Some(isl) => Some(isl),
                None => None,
            }
        } else {
            None
        }
    }
}

/// Local coordinates, within its cluster, of the centre of grid cell `(gx, gy)`.
pub open spec fn cell_local_centre(gx: int, gy: int) -> FixedVec2 {
    FixedVec2 {
        x: FixedNum { bits: ((gx % (CLUSTER_SIZE as int)) * ONE_BITS + HALF_BITS) as i64 },
        y: FixedNum { bits: ((gy % (CLUSTER_SIZE as int)) * ONE_BITS + HALF_BITS) as i64 },
    }
}

/// Arena index of the cluster holding grid cell `(gx, gy)`.
pub open spec fn cell_cluster_index(a: &NavigationArenas, gx: int, gy: int) -> int {
    (gy / (CLUSTER_SIZE as int)) * a.clusters_x + gx / (CLUSTER_SIZE as int)
}

/// `r` is the navigation cell of grid cell `(gx, gy)` over the arenas: the
/// cluster holding it; the first region of that cluster holding the cell's
/// centre, with that region's island; zero indices where no region holds it.
pub open spec fn cell_spec(a: &NavigationArenas, gx: int, gy: int, r: NavigationCell) -> bool {
    let ci = cell_cluster_index(a, gx, gy);
    let cl = a.clusters@[ci];
    let p = cell_local_centre(gx, gy);
    &&& r.cluster_idx.0 == ci
    &&& {
        ||| exists|rid: RegionId|
            #[trigger] region_lookup_spec(cl.regions@, cl.region_count as int, p, Some(rid)) && cl.regions@[rid.0 as int] is Some
                && r.region_idx.0 == ci * MAX_REGIONS + rid.0 && r.island_idx.0 == ci * MAX_ISLANDS
                + cl.regions@[rid.0 as int]->0.island.0
        ||| region_lookup_spec(cl.regions@, cl.region_count as int, p, None) && r.region_idx.0 == 0 && r.island_idx.0 == 0
    }
}


/// Islands of the first `island_count` slots are present, each in the slot
/// of its own id.
pub open spec fn islands_indexed(c: &Cluster) -> bool {
    forall|k: int| 0 <= k < c.island_count ==> (#[trigger] c.islands@[k]) is Some && c.islands@[k]->0.id.0 == k
}

/// Region slot `k` of cluster block `j`.
pub open spec fn arena_region(a: &NavigationArenas, j: int, k: int) -> Option<Region> {
    a.regions@[j * MAX_REGIONS + k]
}

/// Island slot `k` of cluster block `j`.
pub open spec fn arena_island(a: &NavigationArenas, j: int, k: int) -> Option<Island> {
    a.islands@[j * MAX_ISLANDS + k]
}

impl NavigationArenas {
    /// The cell data of grid cell `(x, y)`: its cluster, and the region and
    /// island of that cluster holding the cell's centre.
    fn compute_cell(&self, x: usize, y: usize, w: Ghost<int>, h: Ghost<int>) -> (r: NavigationCell)
        requires
            arenas_wf(self),
            forall|i: int| 0 <= i < self.clusters@.len() ==> links_ready(#[trigger] &self.clusters@[i]),
            self.clusters_x == clusters_across(w@),
            self.clusters_y == clusters_across(h@),
            x < w@,
            y < h@,
        ensures
            cell_spec(self, x as int, y as int, r),
            cell_in_arenas(self, r),
    {
        let cluster_x = x / CLUSTER_SIZE;
        let cluster_y = y / CLUSTER_SIZE;
        proof {
            assert(cluster_x < self.clusters_x);
            assert(cluster_y < self.clusters_y);
            assert(cluster_y * self.clusters_x + cluster_x < self.clusters_x * self.clusters_y) by (nonlinear_arith)
                requires
                    cluster_x < self.clusters_x,
                    cluster_y < self.clusters_y,
            ;
        }
        let cluster_idx = ClusterArenaIdx::from_coords(cluster_x, cluster_y, self.clusters_x);
        let ci = cluster_idx.0 as usize;
        let cluster = &self.clusters[ci];
        proof {
            assert(links_ready(&self.clusters@[ci as int]));
        }
        let local_x = x % CLUSTER_SIZE;
        let local_y = y % CLUSTER_SIZE;
        let point = FixedVec2::new(
            FixedNum::from_bits((local_x as i64) * ONE_BITS + HALF_BITS),
            FixedNum::from_bits((local_y as i64) * ONE_BITS + HALF_BITS),
        );
        proof {
            assert(point == cell_local_centre(x as int, y as int));
        }
        let mut cell = NavigationCell { cluster_idx, region_idx: RegionArenaIdx(0), island_idx: IslandArenaIdx(0) };
        let found = get_region_id(&cluster.regions, cluster.region_count, point);
        match found {
            Some(region_id) => {
                proof {
                    let i = choose|i: int| 0 <= i < cluster.region_count && #[trigger] cluster.regions@[i] is Some
                        && region_holds(cluster.regions@[i]->0, point) && cluster.regions@[i]->0.id == region_id
                        && forall|j: int| 0 <= j < i && cluster.regions@[j] is Some ==> !region_holds(#[trigger] cluster.regions@[j]->0, point);
                    assert(cluster.regions@[i]->0.id.0 == i);
                }
                match &cluster.regions[region_id.0 as usize] {
                    Some(region) => {
                        let island_id = region.island;
                        proof {
                            assert(island_index(cluster, region_id.0 as int) < MAX_ISLANDS);
                            assert(ci * MAX_REGIONS + region_id.0 < self.num_clusters * MAX_REGIONS) by (nonlinear_arith)
                                requires
                                    ci < self.num_clusters,
                                    region_id.0 < MAX_REGIONS,
                            ;
                            assert(ci * MAX_ISLANDS + island_id.0 < self.num_clusters * MAX_REGIONS) by (nonlinear_arith)
                                requires
                                    ci < self.num_clusters,
                                    island_id.0 < MAX_ISLANDS,
                            ;
                        }
                        cell.region_idx = RegionArenaIdx::from_cluster_and_local(cluster_idx, region_id);
                        cell.island_idx = IslandArenaIdx::from_cluster_and_local(cluster_idx, island_id);
                        proof {
                            let cl = self.clusters@[cell_cluster_index(self, x as int, y as int)];
                            assert(region_lookup_spec(cl.regions@, cl.region_count as int, point, Some(region_id)));
                        }
                    },
                    None => {},
                }
            },
            None => {},
        }
        cell
    }

    /// Copies cluster `src` into slot `ci`, and its regions and islands into
    /// the slots of block `ci`, each at its own id.
    fn copy_cluster_block(&mut self, ci: usize, src: &Cluster)
        requires
            arenas_wf(old(self)),
            ci < old(self).num_clusters,
            links_ready(src),
            islands_indexed(src),
        ensures
            arenas_wf(final(self)),
            final(self).num_clusters == old(self).num_clusters,
            final(self).clusters_x == old(self).clusters_x,
            final(self).clusters_y == old(self).clusters_y,
            same_cluster(&final(self).clusters@[ci as int], src),
            forall|j: int| 0 <= j < final(self).clusters@.len() && j != ci ==> #[trigger] final(self).clusters@[j] == old(self).clusters@[j],
            forall|k: int| 0 <= k < src.region_count ==> same_region_slot(#[trigger] arena_region(final(self), ci as int, k), src.regions@[k]),
            forall|s: int| 0 <= s < final(self).regions@.len() && !(ci * MAX_REGIONS <= s < ci * MAX_REGIONS + src.region_count)
                ==> #[trigger] final(self).regions@[s] == old(self).regions@[s],
            forall|k: int| 0 <= k < src.island_count ==> same_island_slot(#[trigger] arena_island(final(self), ci as int, k), src.islands@[k]),
            forall|s: int| 0 <= s < final(self).islands@.len() && !(ci * MAX_ISLANDS <= s < ci * MAX_ISLANDS + src.island_count)
                ==> #[trigger] final(self).islands@[s] == old(self).islands@[s],
    {
        proof {
            assert(ci * MAX_REGIONS + MAX_REGIONS <= self.num_clusters * MAX_REGIONS) by (nonlinear_arith)
                requires
                    ci < self.num_clusters,
            ;
            assert(ci * MAX_ISLANDS + MAX_ISLANDS <= self.num_clusters * MAX_ISLANDS) by (nonlinear_arith)
                requires
                    ci < self.num_clusters,
            ;
        }
        let dup = src.duplicate();
        self.clusters.set(ci, dup);
        let cluster_idx = ClusterArenaIdx(ci as u32);
        let ghost after_set = *self;
        let ghost mid_regions = self.regions@;
        let mut i: usize = 0;
        while i < src.region_count
            invariant
                arenas_wf(self),
                links_ready(src),
                self.clusters@ == after_set.clusters@,
                self.islands@ == after_set.islands@,
                self.num_clusters == after_set.num_clusters,
                self.clusters_x == after_set.clusters_x,
                self.clusters_y == after_set.clusters_y,
                ci < self.num_clusters,
                cluster_idx.0 == ci,
                ci * MAX_REGIONS + MAX_REGIONS <= self.num_clusters * MAX_REGIONS,
                self.regions@.len() == mid_regions.len(),
                i <= src.region_count,
                forall|k: int| 0 <= k < i ==> same_region_slot(#[trigger] arena_region(self, ci as int, k), src.regions@[k]),
                forall|s: int| 0 <= s < self.regions@.len() && !(ci * MAX_REGIONS <= s < ci * MAX_REGIONS + i)
                    ==> #[trigger] self.regions@[s] == mid_regions[s],
            decreases src.region_count - i,
        {
            match &src.regions[i] {
                Some(region) => {
                    let copy = region.duplicate();
                    let idx = RegionArenaIdx::from_cluster_and_local(cluster_idx, region.id);
                    let ghost prev = *self;
                    self.regions.set(idx.0 as usize, Some(copy));
                    proof {
                        assert(region.id.0 == i);
                        assert(arena_region(self, ci as int, i as int) == Some(copy));
                        assert forall|k: int| 0 <= k < i + 1 implies same_region_slot(#[trigger] arena_region(self, ci as int, k), src.regions@[k]) by {
                            if k < i {
                                assert(same_region_slot(arena_region(&prev, ci as int, k), src.regions@[k]));
                            }
                        }
                    }
                },
                None => {
                    proof {
                        assert(src.regions@[i as int] is Some);
                    }
                },
            }
            i = i + 1;
        }
        let ghost after_set_regions = self.regions@;
        let ghost after_regions = *self;
        let ghost mid_islands = self.islands@;
        let mut k: usize = 0;
        while k < src.island_count
            invariant
                arenas_wf(self),
                islands_indexed(src),
                src.wf(),
                self.clusters@ == after_set.clusters@,
                self.regions@ == after_set_regions,
                self.num_clusters == after_set.num_clusters,
                self.clusters_x == after_set.clusters_x,
                self.clusters_y == after_set.clusters_y,
                ci < self.num_clusters,
                cluster_idx.0 == ci,
                ci * MAX_ISLANDS + MAX_ISLANDS <= self.num_clusters * MAX_ISLANDS,
                self.islands@.len() == mid_islands.len(),
                k <= src.island_count,
                forall|m: int| 0 <= m < k ==> same_island_slot(#[trigger] arena_island(self, ci as int, m), src.islands@[m]),
                forall|s: int| 0 <= s < self.islands@.len() && !(ci * MAX_ISLANDS <= s < ci * MAX_ISLANDS + k)
                    ==> #[trigger] self.islands@[s] == mid_islands[s],
            decreases src.island_count - k,
        {
            match &src.islands[k] {
                Some(island) => {
                    let copy = island.duplicate();
                    let idx = IslandArenaIdx::from_cluster_and_local(cluster_idx, island.id);
                    let ghost prev = *self;
                    self.islands.set(idx.0 as usize, Some(copy));
                    proof {
                        assert(island.id.0 == k);
                        assert(arena_island(self, ci as int, k as int) == Some(copy));
                        assert forall|m: int| 0 <= m < k + 1 implies same_island_slot(#[trigger] arena_island(self, ci as int, m), src.islands@[m]) by {
                            if m < k {
                                assert(same_island_slot(arena_island(&prev, ci as int, m), src.islands@[m]));
                            }
                        }
                    }
                },
                None => {
                    proof {
                        assert(src.islands@[k as int] is Some);
                    }
                },
            }
            k = k + 1;
        }
        proof {
            assert forall|k: int| 0 <= k < src.region_count implies same_region_slot(#[trigger] arena_region(self, ci as int, k), src.regions@[k]) by {
                assert(same_region_slot(arena_region(&after_regions, ci as int, k), src.regions@[k]));
            }
        }
    }
}


/// What arena block `j` held before a population: an empty cluster with no
/// regions or islands where the grid was resized, else what `prev` held.
pub open spec fn prior_cluster(prev: &NavigationArenas, resized: bool, cx: int, j: int, c: &Cluster) -> bool {
    if resized {
        fresh_cluster(c, ((j % cx) as usize, (j / cx) as usize))
    } else {
        *c == prev.clusters@[j]
    }
}

/// What region slot `k` of block `j` held before a population.
pub open spec fn prior_region(prev: &NavigationArenas, resized: bool, j: int, k: int) -> Option<Region> {
    if resized {
        None
    } else {
        arena_region(prev, j, k)
    }
}

/// What island slot `k` of block `j` held before a population.
pub open spec fn prior_island(prev: &NavigationArenas, resized: bool, j: int, k: int) -> Option<Island> {
    if resized {
        None
    } else {
        arena_island(prev, j, k)
    }
}

/// Block `j` of `a` after copying in the graph's cluster at that position:
/// a copy of the cluster, of its first `region_count` regions and of its
/// first `island_count` islands, the other slots as before; the block as
/// before where the graph has no cluster there.
pub open spec fn block_filled(a: &NavigationArenas, prev: &NavigationArenas, resized: bool, g: &HierarchicalGraph, j: int) -> bool {
    let cx = a.clusters_x as int;
    match g.cluster_at(j % cx, j / cx) {
        Some(src) => {
            &&& same_cluster(&a.clusters@[j], &src)
            &&& forall|k: int|
                0 <= k < MAX_REGIONS ==> if k < src.region_count {
                    same_region_slot(#[trigger] arena_region(a, j, k), src.regions@[k])
                } else {
                    arena_region(a, j, k) == prior_region(prev, resized, j, k)
                }
            &&& forall|k: int|
                0 <= k < MAX_ISLANDS ==> if k < src.island_count {
                    same_island_slot(#[trigger] arena_island(a, j, k), src.islands@[k])
                } else {
                    arena_island(a, j, k) == prior_island(prev, resized, j, k)
                }
        },
        None => {
            &&& prior_cluster(prev, resized, cx, j, &a.clusters@[j])
            &&& forall|k: int| 0 <= k < MAX_REGIONS ==> #[trigger] arena_region(a, j, k) == prior_region(prev, resized, j, k)
            &&& forall|k: int| 0 <= k < MAX_ISLANDS ==> #[trigger] arena_island(a, j, k) == prior_island(prev, resized, j, k)
        },
    }
}

/// Clusters of the graph can be copied: their regions can be searched and
/// their islands sit at their ids.
pub open spec fn graph_copyable(g: &HierarchicalGraph) -> bool {
    forall|cx: int, cy: int| #[trigger] g.cluster_at(cx, cy) is Some ==> links_ready(&g.cluster_at(cx, cy)->0)
        && islands_indexed(&g.cluster_at(cx, cy)->0)
}


proof fn lemma_cells_fit(a: &NavigationArenas, w: int, h: int)
    requires
        arenas_wf(a),
        a.clusters_x == clusters_across(w),
        a.clusters_y == clusters_across(h),
        w > 0,
        h > 0,
    ensures
        a.num_clusters >= 1,
{
    assert(a.clusters_x >= 1 && a.clusters_y >= 1);
    assert(a.clusters_x * a.clusters_y >= 1) by (nonlinear_arith)
        requires
            a.clusters_x >= 1,
            a.clusters_y >= 1,
    ;
}

/// `h` rows of `w` zero cells.
fn zero_grid(w: usize, h: usize) -> (grid: Vec<Vec<NavigationCell>>)
    ensures
        grid@.len() == h,
        forall|j: int| 0 <= j < h ==> (#[trigger] grid@[j])@.len() == w,
        forall|j: int, x: int| 0 <= j < h && 0 <= x < w ==> (#[trigger] grid@[j]@[x]).cluster_idx.0 == 0
            && grid@[j]@[x].region_idx.0 == 0 && grid@[j]@[x].island_idx.0 == 0,
{
    let mut grid: Vec<Vec<NavigationCell>> = Vec::new();
    let mut y: usize = 0;
    while y < h
        invariant
            y <= h,
            grid@.len() == y,
            forall|j: int| 0 <= j < y ==> (#[trigger] grid@[j])@.len() == w,
            forall|j: int, x: int| 0 <= j < y && 0 <= x < w ==> (#[trigger] grid@[j]@[x]).cluster_idx.0 == 0
                && grid@[j]@[x].region_idx.0 == 0 && grid@[j]@[x].island_idx.0 == 0,
        decreases h - y,
    {
        let mut row: Vec<NavigationCell> = Vec::new();
        let mut x: usize = 0;
        while x < w
            invariant
                x <= w,
                row@.len() == x,
                forall|i: int| 0 <= i < x ==> (#[trigger] row@[i]).cluster_idx.0 == 0 && row@[i].region_idx.0 == 0
                    && row@[i].island_idx.0 == 0,
            decreases w - x,
        {
            row.push(NavigationCell::default());
            x = x + 1;
        }
        grid.push(row);
        y = y + 1;
    }
    grid
}

proof fn lemma_block_step(
    before: &NavigationArenas,
    after: &NavigationArenas,
    prev: &NavigationArenas,
    resized: bool,
    g: &HierarchicalGraph,
    ci: int,
    src: &Cluster,
)
    requires
        0 <= ci < before.num_clusters,
        before.clusters_x > 0,
        g.cluster_at(ci % (before.clusters_x as int), ci / (before.clusters_x as int)) == Some(*src),
        arenas_wf(before),
        after.num_clusters == before.num_clusters,
        after.clusters_x == before.clusters_x,
        after.regions@.len() == before.regions@.len(),
        after.islands@.len() == before.islands@.len(),
        after.clusters@.len() == before.clusters@.len(),
        src.wf(),
        same_cluster(&after.clusters@[ci], src),
        forall|j: int| 0 <= j < after.clusters@.len() && j != ci ==> #[trigger] after.clusters@[j] == before.clusters@[j],
        forall|k: int| 0 <= k < src.region_count ==> same_region_slot(#[trigger] arena_region(after, ci, k), src.regions@[k]),
        forall|s: int| 0 <= s < after.regions@.len() && !(ci * MAX_REGIONS <= s < ci * MAX_REGIONS + src.region_count)
            ==> #[trigger] after.regions@[s] == before.regions@[s],
        forall|k: int| 0 <= k < src.island_count ==> same_island_slot(#[trigger] arena_island(after, ci, k), src.islands@[k]),
        forall|s: int| 0 <= s < after.islands@.len() && !(ci * MAX_ISLANDS <= s < ci * MAX_ISLANDS + src.island_count)
            ==> #[trigger] after.islands@[s] == before.islands@[s],
        forall|j: int| 0 <= j < ci ==> #[trigger] block_filled(before, prev, resized, g, j),
        forall|j: int, k: int| ci <= j < before.num_clusters && 0 <= k < MAX_REGIONS ==> #[trigger] arena_region(before, j, k) == prior_region(prev, resized, j, k),
        forall|j: int, k: int| ci <= j < before.num_clusters && 0 <= k < MAX_ISLANDS ==> #[trigger] arena_island(before, j, k) == prior_island(prev, resized, j, k),
    ensures
        forall|j: int| 0 <= j <= ci ==> #[trigger] block_filled(after, prev, resized, g, j),
        forall|j: int, k: int| ci < j < after.num_clusters && 0 <= k < MAX_REGIONS ==> #[trigger] arena_region(after, j, k) == prior_region(prev, resized, j, k),
        forall|j: int, k: int| ci < j < after.num_clusters && 0 <= k < MAX_ISLANDS ==> #[trigger] arena_island(after, j, k) == prior_island(prev, resized, j, k),
{
    assert forall|j: int, k: int| 0 <= j < after.num_clusters && j != ci && 0 <= k < MAX_REGIONS implies #[trigger] arena_region(after, j, k) == arena_region(before, j, k) by {
        assert(j * MAX_REGIONS + k < after.num_clusters * MAX_REGIONS) by (nonlinear_arith)
            requires
                j < after.num_clusters,
                0 <= k < MAX_REGIONS,
        ;
        assert(0 <= j * MAX_REGIONS + k) by (nonlinear_arith)
            requires
                0 <= j,
                0 <= k,
        ;
    }
    assert forall|j: int, k: int| 0 <= j < after.num_clusters && j != ci && 0 <= k < MAX_ISLANDS implies #[trigger] arena_island(after, j, k) == arena_island(before, j, k) by {
        assert(j * MAX_ISLANDS + k < after.num_clusters * MAX_ISLANDS) by (nonlinear_arith)
            requires
                j < after.num_clusters,
                0 <= k < MAX_ISLANDS,
        ;
        assert(0 <= j * MAX_ISLANDS + k) by (nonlinear_arith)
            requires
                0 <= j,
                0 <= k,
        ;
    }
    assert forall|j: int| 0 <= j <= ci implies #[trigger] block_filled(after, prev, resized, g, j) by {
        if j < ci {
            assert(block_filled(before, prev, resized, g, j));
        } else {
            assert forall|k: int| 0 <= k < MAX_REGIONS && k >= src.region_count implies #[trigger] arena_region(after, j, k) == prior_region(prev, resized, j, k) by {
                assert(arena_region(before, j, k) == prior_region(prev, resized, j, k));
                assert(0 <= ci * MAX_REGIONS + k < after.regions@.len()) by (nonlinear_arith)
                    requires
                        0 <= ci < after.num_clusters,
                        0 <= k < MAX_REGIONS,
                        after.regions@.len() == after.num_clusters * MAX_REGIONS,
                ;
            }
            assert forall|k: int| 0 <= k < MAX_ISLANDS && k >= src.island_count implies #[trigger] arena_island(after, j, k) == prior_island(prev, resized, j, k) by {
                assert(arena_island(before, j, k) == prior_island(prev, resized, j, k));
                assert(0 <= ci * MAX_ISLANDS + k < after.islands@.len()) by (nonlinear_arith)
                    requires
                        0 <= ci < after.num_clusters,
                        0 <= k < MAX_ISLANDS,
                        after.islands@.len() == after.num_clusters * MAX_ISLANDS,
                ;
            }
        }
    }
}

/// The indices of `c` point into the arenas.
pub open spec fn cell_in_arenas(a: &NavigationArenas, c: NavigationCell) -> bool {
    &&& c.cluster_idx.0 < a.num_clusters
    &&& c.region_idx.0 < a.num_clusters * MAX_REGIONS
    &&& c.island_idx.0 < a.num_clusters * MAX_ISLANDS
}

/// The navigation grid and its arenas.
pub struct NavigationLookup {
    grid: Vec<Vec<NavigationCell>>,
    pub arenas: NavigationArenas,
    width: usize,
    height: usize,
}

impl NavigationLookup {
    /// Width and height of the grid.
    pub closed spec fn dims(&self) -> (int, int) {
        (self.width as int, self.height as int)
    }

    /// Whether filling for a `w` by `h` grid resizes this lookup.
    pub open spec fn resized_for(&self, w: int, h: int) -> bool {
        self.dims() != (w, h)
    }

    /// The arenas.
    pub closed spec fn arena_state(&self) -> NavigationArenas {
        self.arenas
    }

    /// The navigation cell stored for grid cell `(x, y)`.
    pub closed spec fn cell(&self, x: int, y: int) -> NavigationCell {
        self.grid@[y]@[x]
    }

    /// One row of cells per grid row, one cell per grid column, and arenas
    /// whose clusters can be searched.
    pub closed spec fn wf(&self) -> bool {
        &&& self.grid@.len() == self.height
        &&& forall|y: int| 0 <= y < self.height ==> (#[trigger] self.grid@[y])@.len() == self.width
        &&& arenas_wf(&self.arenas)
        &&& forall|i: int| 0 <= i < self.arenas.clusters@.len() ==> links_ready(#[trigger] &self.arenas.clusters@[i])
        &&& self.arenas.clusters_x == clusters_across(self.width as int)
        &&& self.arenas.clusters_y == clusters_across(self.height as int)
        &&& lookup_fits(self.width as int, self.height as int)
        &&& forall|x: int, y: int| 0 <= x < self.width && 0 <= y < self.height ==> cell_in_arenas(&self.arenas, #[trigger] self.grid@[y]@[x])
    }

    /// A `map_width` by `map_height` grid of zero cells over empty arenas.
    pub fn new(map_width: usize, map_height: usize) -> (r: NavigationLookup)
        requires
            lookup_fits(map_width as int, map_height as int),
        ensures
            r.wf(),
            r.dims() == (map_width as int, map_height as int),
            forall|x: int, y: int| 0 <= x < map_width && 0 <= y < map_height ==> (#[trigger] r.cell(x, y)).cluster_idx.0 == 0
                && r.cell(x, y).region_idx.0 == 0 && r.cell(x, y).island_idx.0 == 0,
            forall|i: int| 0 <= i < r.arena_state().clusters@.len() ==> fresh_cluster(#[trigger] &r.arena_state().clusters@[i], ((i % r.arena_state().clusters_x as int) as usize, (i / r.arena_state().clusters_x as int) as usize)),
            forall|i: int| 0 <= i < r.arena_state().regions@.len() ==> #[trigger] r.arena_state().regions@[i] is None,
            forall|i: int| 0 <= i < r.arena_state().islands@.len() ==> #[trigger] r.arena_state().islands@[i] is None,
    {
        let grid = zero_grid(map_width, map_height);
        let arenas = NavigationArenas::new(map_width, map_height);
        proof {
            if map_width > 0 && map_height > 0 {
                lemma_cells_fit(&arenas, map_width as int, map_height as int);
            }
        }
        NavigationLookup { grid, arenas, width: map_width, height: map_height }
    }

    /// The arenas.
    pub fn arenas(&self) -> (r: &NavigationArenas)
        ensures
            *r == self.arena_state(),
    {
        &self.arenas
    }

    /// What a well-formed lookup promises of its arenas and cells: the
    /// arenas are well formed, their clusters can be searched, and the cell
    /// of grid cell `(x, y)` points into them.
    pub proof fn lemma_cell_in_arenas(&self, x: int, y: int)
        requires
            self.wf(),
            0 <= x < self.dims().0,
            0 <= y < self.dims().1,
        ensures
            arenas_wf(&self.arena_state()),
            forall|i: int| 0 <= i < self.arena_state().clusters@.len() ==> links_ready(#[trigger] &self.arena_state().clusters@[i]),
            cell_in_arenas(&self.arena_state(), self.cell(x, y)),
    {
    }

    /// The cell data of grid cell `(grid_x, grid_y)`, or `None` outside the grid.
    pub fn lookup(&self, grid_x: usize, grid_y: usize) -> (r: Option<NavigationCell>)
        requires
            self.wf(),
        ensures
            r is Some <==> (grid_x as int) < self.dims().0 && (grid_y as int) < self.dims().1,
            r is Some ==> r->0 == self.cell(grid_x as int, grid_y as int),
    {
        if grid_y < self.height && grid_x < self.width {
            Some(self.grid[grid_y][grid_x])
        } else {
            None
        }
    }

    /// Fills the lookup from `graph` over a grid of the flow field's size:
    /// resizes the grid and the arenas (to empty ones) where the size
    /// differs, copies each cluster of the graph with its regions and
    /// islands into its arena block, then gives every grid cell its cluster
    /// and the region and island of that cluster holding the cell's centre.
    pub fn populate_from_graph(&mut self, graph: &HierarchicalGraph, flow_field: &FlowField)
        requires
            old(self).wf(),
            graph.wf(),
            graph_copyable(graph),
            lookup_fits(flow_field.width as int, flow_field.height as int),
        ensures
            final(self).wf(),
            final(self).dims() == (flow_field.width as int, flow_field.height as int),
            forall|j: int| 0 <= j < final(self).arena_state().num_clusters ==> #[trigger] block_filled(
                &final(self).arena_state(),
                &old(self).arena_state(),
                old(self).resized_for(flow_field.width as int, flow_field.height as int),
                graph,
                j,
            ),
            forall|x: int, y: int| 0 <= x < flow_field.width && 0 <= y < flow_field.height ==> cell_spec(
                &final(self).arena_state(),
                x,
                y,
                #[trigger] final(self).cell(x, y),
            ),
    {
        let ghost prev = self.arenas;
        let ghost resized = self.resized_for(flow_field.width as int, flow_field.height as int);
        let map_width = flow_field.width;
        let map_height = flow_field.height;
        if self.width != map_width || self.height != map_height {
            self.grid = zero_grid(map_width, map_height);
            self.arenas = NavigationArenas::new(map_width, map_height);
            self.width = map_width;
            self.height = map_height;
            proof {
                if map_width > 0 && map_height > 0 {
                    lemma_cells_fit(&self.arenas, map_width as int, map_height as int);
                }
            }
        }
        let num_clusters = self.arenas.num_clusters;
        let clusters_x = self.arenas.clusters_x;
        proof {
            assert(clusters_x > 0 || num_clusters == 0) by (nonlinear_arith)
                requires
                    num_clusters == clusters_x * self.arenas.clusters_y,
            ;
        }
        let mut ci: usize = 0;
        while ci < num_clusters
            invariant
                arenas_wf(&self.arenas),
                graph.wf(),
                graph_copyable(graph),
                self.arenas.num_clusters == num_clusters,
                self.arenas.clusters_x == clusters_x,
                self.arenas.clusters_x == clusters_across(map_width as int),
                self.arenas.clusters_y == clusters_across(map_height as int),
                self.width == map_width,
                self.height == map_height,
                map_width == flow_field.width,
                map_height == flow_field.height,
                lookup_fits(map_width as int, map_height as int),
                resized == old(self).resized_for(map_width as int, map_height as int),
                prev == old(self).arena_state(),
                !resized ==> arenas_wf(&prev) && prev.num_clusters == num_clusters,
                self.grid@.len() == self.height,
                forall|y: int| 0 <= y < self.height ==> (#[trigger] self.grid@[y])@.len() == self.width,
                forall|x: int, y: int| 0 <= x < self.width && 0 <= y < self.height ==> cell_in_arenas(&self.arenas, #[trigger] self.grid@[y]@[x]),
                ci <= num_clusters,
                forall|i: int| 0 <= i < self.arenas.clusters@.len() ==> links_ready(#[trigger] &self.arenas.clusters@[i]),
                forall|j: int| 0 <= j < ci ==> #[trigger] block_filled(&self.arenas, &prev, resized, graph, j),
                forall|j: int| ci <= j < num_clusters ==> prior_cluster(&prev, resized, clusters_x as int, j, #[trigger] &self.arenas.clusters@[j]),
                forall|j: int, k: int| ci <= j < num_clusters && 0 <= k < MAX_REGIONS ==> #[trigger] arena_region(&self.arenas, j, k) == prior_region(&prev, resized, j, k),
                forall|j: int, k: int| ci <= j < num_clusters && 0 <= k < MAX_ISLANDS ==> #[trigger] arena_island(&self.arenas, j, k) == prior_island(&prev, resized, j, k),
            decreases num_clusters - ci,
        {
            let cx = ci % clusters_x;
            let cy = ci / clusters_x;
            proof {
                lemma_fundamental_div_mod(ci as int, clusters_x as int);
            }
            match graph.get_cluster(cx, cy) {
                Some(src) => {
                    let ghost before = self.arenas;
                    self.arenas.copy_cluster_block(ci, src);
                    proof {
                        lemma_copy_ready(&self.arenas.clusters@[ci as int], src);
                        lemma_block_step(&before, &self.arenas, &prev, resized, graph, ci as int, src);
                    }
                },
                None => {},
            }
            ci = ci + 1;
        }
        let ghost filled = self.arenas;
        let mut y: usize = 0;
        while y < map_height
            invariant
                self.arenas == filled,
                arenas_wf(&self.arenas),
                self.arenas.clusters_x == clusters_across(map_width as int),
                self.arenas.clusters_y == clusters_across(map_height as int),
                forall|i: int| 0 <= i < self.arenas.clusters@.len() ==> links_ready(#[trigger] &self.arenas.clusters@[i]),
                self.width == map_width,
                self.height == map_height,
                y <= map_height,
                self.grid@.len() == self.height,
                forall|r: int| 0 <= r < self.height ==> (#[trigger] self.grid@[r])@.len() == self.width,
                forall|r: int, x: int| 0 <= r < y && 0 <= x < map_width ==> cell_spec(&self.arenas, x, r, #[trigger] self.grid@[r]@[x]) && cell_in_arenas(&self.arenas, self.grid@[r]@[x]),
                forall|r: int, x: int| y <= r < map_height && 0 <= x < map_width ==> cell_in_arenas(&self.arenas, #[trigger] self.grid@[r]@[x]),
            decreases map_height - y,
        {
            let mut row: Vec<NavigationCell> = Vec::new();
            let mut x: usize = 0;
            while x < map_width
                invariant
                    arenas_wf(&self.arenas),
                    self.arenas.clusters_x == clusters_across(map_width as int),
                    self.arenas.clusters_y == clusters_across(map_height as int),
                    forall|i: int| 0 <= i < self.arenas.clusters@.len() ==> links_ready(#[trigger] &self.arenas.clusters@[i]),
                    y < map_height,
                    x <= map_width,
                    row@.len() == x,
                    forall|i: int| 0 <= i < x ==> cell_spec(&self.arenas, i, y as int, #[trigger] row@[i]) && cell_in_arenas(&self.arenas, row@[i]),
                decreases map_width - x,
            {
                let cell = self.arenas.compute_cell(x, y, Ghost(map_width as int), Ghost(map_height as int));
                row.push(cell);
                x = x + 1;
            }
            let ghost prev_grid = self.grid@;
            self.grid.set(y, row);
            proof {
                assert forall|r: int, x: int| 0 <= r < y + 1 && 0 <= x < map_width implies cell_spec(&self.arenas, x, r, #[trigger] self.grid@[r]@[x]) && cell_in_arenas(&self.arenas, self.grid@[r]@[x]) by {
                    if r < y {
                        assert(self.grid@[r] == prev_grid[r]);
                    }
                }
                assert forall|r: int, x: int| y + 1 <= r < map_height && 0 <= x < map_width implies cell_in_arenas(&self.arenas, #[trigger] self.grid@[r]@[x]) by {
                    assert(self.grid@[r] == prev_grid[r]);
                }
            }
            y = y + 1;
        }
    }
}

impl Default for NavigationLookup {
    /// A one by one lookup.
    fn default() -> (r: NavigationLookup)
        ensures
            r.wf(),
            r.dims() == (1int, 1int),
    {
        proof {
            assert(clusters_across(1) == 1);
        }
        NavigationLookup::new(1, 1)
    }
}

} // verus!
