//! Field-by-field copies of regions, islands and clusters.
use vstd::prelude::*;
use crate::pathfinding::types::{Region, Island};
use crate::pathfinding::cluster::Cluster;

verus! {

/// A vector with the same items.
pub fn copy_vec<T: Copy>(v: &Vec<T>) -> (r: Vec<T>)
    ensures
        r@ == v@,
{
    let mut r: Vec<T> = Vec::new();
    let mut i: usize = 0;
    while i < v.len()
        invariant
            i <= v@.len(),
            r@ == v@.subrange(0, i as int),
        decreases v@.len() - i,
    {
        r.push(v[i]);
        proof {
            assert(r@ =~= v@.subrange(0, i + 1));
        }
        i = i + 1;
    }
    proof {
        assert(r@ =~= v@);
    }
    r
}

/// Regions `a` and `b` hold the same data.
pub open spec fn same_region(a: Region, b: Region) -> bool {
    &&& a.id == b.id
    &&& a.bounds == b.bounds
    &&& a.vertices@ == b.vertices@
    &&& a.island == b.island
    &&& a.portals@ == b.portals@
    &&& a.is_dangerous == b.is_dangerous
}

/// Islands `a` and `b` hold the same data.
pub open spec fn same_island(a: Island, b: Island) -> bool {
    &&& a.id == b.id
    &&& a.representative == b.representative
    &&& a.members() == b.members()
}

/// Optional regions holding the same data, or both empty.
pub open spec fn same_region_slot(a: Option<Region>, b: Option<Region>) -> bool {
    match (a, b) {
        (Some(x), Some(y)) => same_region(x, y),
        (None, None) => true,
        _ => false,
    }
}

/// Optional islands holding the same data, or both empty.
pub open spec fn same_island_slot(a: Option<Island>, b: Option<Island>) -> bool {
    match (a, b) {
        (Some(x), Some(y)) => same_island(x, y),
        (None, None) => true,
        _ => false,
    }
}

/// Clusters `a` and `b` hold the same data.
pub open spec fn same_cluster(a: &Cluster, b: &Cluster) -> bool {
    &&& a.id == b.id
    &&& a.regions@.len() == b.regions@.len()
    &&& forall|i: int| 0 <= i < a.regions@.len() ==> same_region_slot(#[trigger] a.regions@[i], b.regions@[i])
    &&& a.region_count == b.region_count
    &&& a.islands@.len() == b.islands@.len()
    &&& forall|i: int| 0 <= i < a.islands@.len() ==> same_island_slot(#[trigger] a.islands@[i], b.islands@[i])
    &&& a.island_count == b.island_count
    &&& a.local_routing@ == b.local_routing@
    &&& a.neighbor_connectivity@ == b.neighbor_connectivity@
}

impl Region {
    /// A region with the same data.
    pub fn duplicate(&self) -> (r: Region)
        ensures
            same_region(r, *self),
    {
        Region {
            id: self.id,
            bounds: self.bounds,
            vertices: copy_vec(&self.vertices),
            island: self.island,
            portals: copy_vec(&self.portals),
            is_dangerous: self.is_dangerous,
        }
    }
}

impl Island {
    /// An island with the same data.
    pub fn duplicate(&self) -> (r: Island)
        ensures
            same_island(r, *self),
    {
        Island { id: self.id, representative: self.representative, regions: self.regions.duplicate() }
    }
}

impl Cluster {
    /// A cluster with the same data.
    pub fn duplicate(&self) -> (r: Cluster)
        ensures
            same_cluster(&r, self),
    {
        let mut regions: Vec<Option<Region>> = Vec::new();
        let mut i: usize = 0;
        while i < self.regions.len()
            invariant
                i <= self.regions@.len(),
                regions@.len() == i,
                forall|j: int| 0 <= j < i ==> same_region_slot(#[trigger] regions@[j], self.regions@[j]),
            decreases self.regions@.len() - i,
        {
            let slot = match &self.regions[i] {
                Some(reg) => Some(reg.duplicate()),
                None => None,
            };
            regions.push(slot);
            i = i + 1;
        }
        let mut islands: Vec<Option<Island>> = Vec::new();
        let mut i: usize = 0;
        while i < self.islands.len()
            invariant
                i <= self.islands@.len(),
                islands@.len() == i,
                forall|j: int| 0 <= j < i ==> same_island_slot(#[trigger] islands@[j], self.islands@[j]),
            decreases self.islands@.len() - i,
        {
            let slot = match &self.islands[i] {
                Some(isl) => Some(isl.duplicate()),
                None => None,
            };
            islands.push(slot);
            i = i + 1;
        }
        Cluster {
            id: self.id,
            regions,
            region_count: self.region_count,
            islands,
            island_count: self.island_count,
            local_routing: copy_vec(&self.local_routing),
            neighbor_connectivity: copy_vec(&self.neighbor_connectivity),
        }
    }
}

} // verus!
